//! Watching the served directory, and telling the browser when it changed:
//! which events are changes, what to say about trouble, and how the check
//! that keeps the watch on the directory decides.
//!
//! Times are nanoseconds on the watch's clock.

use crate::refresh::Clock;
use crate::text::{self, chars_of, push_char, text_of};
use crate::version::FileIdentity;
use vstd::prelude::*;

verus! {

/// Long enough to group the writes one save makes, short enough that the
/// refresh still feels immediate: 200 milliseconds.
pub const DEBOUNCE_DELAY: u64 = 200_000_000;

/// How often `--poll` looks at the files: once a second.
pub const POLL_INTERVAL: u64 = 1_000_000_000;

/// How often to check that the served directory is still the one being
/// watched, and how long to wait between attempts to watch it again: 100
/// milliseconds.
pub const CHECK_INTERVAL: u64 = 100_000_000;

/// How long to wait before trying to watch again after the system refused:
/// a second. Every try walks the whole directory, so not too often.
pub const TRIES_AGAIN_AFTER: u64 = 1_000_000_000;

/// How long after the watch goes on the files themselves are asked whether
/// anything happened: three seconds.
pub const SETTLING_IN: u64 = 3_000_000_000;

/// How many unreadable paths are worth naming. Past that it goes quiet.
pub const MOST_PROBLEMS: usize = 20;

/// How long the watcher's own account of a rebuild goes on arriving after the
/// rebuild was announced: as long as the watcher takes to hear about it, plus
/// the one [`CHECK_INTERVAL`] by which the check got there first. A poll knows
/// nothing until its next look; the system's own notifications are there at
/// once, held back only by the debounce.
pub open spec fn echo_window(poll: bool) -> int {
    if poll {
        POLL_INTERVAL + DEBOUNCE_DELAY + CHECK_INTERVAL
    } else {
        DEBOUNCE_DELAY + CHECK_INTERVAL
    }
}

pub fn same_rebuild(poll: bool) -> (window: u64)
    ensures
        window == echo_window(poll),
{
    let hears_within = if poll {
        POLL_INTERVAL + DEBOUNCE_DELAY
    } else {
        DEBOUNCE_DELAY
    };
    hears_within + CHECK_INTERVAL
}

/// A poll hears about a rebuild a whole look later, and the window has to
/// cover that; too short, and one rebuild is announced twice.
pub proof fn law_polling_waits_a_look_longer_for_the_echo()
    ensures
        echo_window(true) >= echo_window(false) + POLL_INTERVAL,
{
}

#[verifier::external_type_specification]
#[verifier::external_body]
#[verifier::reject_recursive_types(T)]
pub struct ExMutex<T: ?Sized>(std::sync::Mutex<T>);

/// When a rebuild was last announced, shared between the watcher and the
/// check. The watcher's own account of the same rebuild arrives a moment
/// later, and this is how it is recognised as the echo it is.
pub struct Announced {
    at: std::sync::Mutex<Option<u64>>,
}

/// `Mutex::new` from std, holding no time yet. Other threads read and write
/// it, so nothing is claimed of what it holds.
#[verifier::external_body]
fn new_cell() -> std::sync::Mutex<Option<u64>> {
    std::sync::Mutex::new(None)
}

/// Reads the shared time through `Mutex::lock`: `None` where the lock is
/// poisoned. Other threads write it, so nothing is claimed of what it holds.
#[verifier::external_body]
fn read_cell(cell: &std::sync::Mutex<Option<u64>>) -> Option<Option<u64>> {
    match cell.lock() {
        Ok(held) => Some(*held),
        Err(_) => None,
    }
}

/// Writes the shared time through `Mutex::lock`, unless the lock is poisoned.
#[verifier::external_body]
fn write_cell(cell: &std::sync::Mutex<Option<u64>>, at: u64) {
    if let Ok(mut held) = cell.lock() {
        *held = Some(at);
    }
}

impl Announced {
    /// Nothing announced yet.
    pub fn new() -> Announced {
        Announced { at: new_cell() }
    }
}

/// Marks a rebuild as announced as of now, so the watcher's own account of it
/// is recognised as the echo it is.
pub fn announce(at: &Announced, clock: &Clock) {
    let now = clock.now();
    write_cell(&at.at, now);
}

/// Whether a rebuild announced at `announced` is less than `within` before
/// `now`; the time since it counts as none if the clock seems to have gone
/// back.
pub open spec fn announced_within(announced: Option<u64>, now: u64, within: u64) -> bool {
    match announced {
        Some(when) => (if now >= when { now - when } else { 0 }) < within,
        None => false,
    }
}

pub fn was_announced_within(announced: Option<u64>, now: u64, within: u64) -> (recent: bool)
    ensures
        recent == announced_within(announced, now, within),
{
    match announced {
        Some(when) => {
            let since = if now >= when {
                now - when
            } else {
                0
            };
            since < within
        },
        None => false,
    }
}

/// Whether what was read of the shared time (`None` where the lock was
/// poisoned) says a rebuild was announced less than `within` before `now`.
pub fn recent_in(read: Option<Option<u64>>, now: u64, within: u64) -> (recent: bool)
    ensures
        recent == match read {
            Some(announced) => announced_within(announced, now, within),
            None => false,
        },
{
    match read {
        Some(announced) => was_announced_within(announced, now, within),
        None => false,
    }
}

/// True when a rebuild was announced a moment ago, so what the watcher is
/// reporting now is that same rebuild reaching it the slower way.
///
/// When it was announced and the time now come from other threads and the
/// clock, so all that holds whatever they are is that no rebuild is recent
/// within no time at all; what is made of them is [`recent_in`].
pub fn just_announced(at: &Announced, within: u64, clock: &Clock) -> (recent: bool)
    ensures
        within == 0 ==> !recent,
{
    recent_in(read_cell(&at.at), clock.now(), within)
}

/// What kind of event the watcher reported.
#[derive(Clone, Copy, Debug, PartialEq, Eq, Structural)]
pub enum EventKind {
    /// Something happened, the system cannot say what.
    Any,
    Create,
    Remove,
    /// The write time moved.
    WriteTime,
    /// Permissions, ownership, access times and other details moved.
    OtherMetadata,
    /// The contents, or the name, changed.
    Modify,
    /// A file open for writing was closed: a finished save.
    CloseWrite,
    /// A file was opened, read, or closed after reading.
    Access,
    Other,
}

/// What the logic reads of a path an event names.
#[derive(Clone, Copy, Debug, PartialEq, Eq, Structural)]
pub struct EventPath {
    /// Whether it is a directory now.
    pub is_dir: bool,
    /// Whether a change there is one not to refresh for.
    pub ignored: bool,
    /// Whether it is there with a write time from before the watch went on.
    pub written_before_the_watch: bool,
}

/// One event the watcher reported.
pub struct WatchEvent {
    pub kind: EventKind,
    /// The system dropped events on the way, so anything may have changed.
    pub need_rescan: bool,
    pub paths: Vec<EventPath>,
}

/// True when the browser should refresh for an event.
///
/// Dropped events are a change whatever they name. Otherwise the event must be
/// a write (a creation, a removal, a change of contents, a finished save; and
/// while polling, a write time that moved on something other than a
/// directory), and some path it names must not be ignored. Reading a file,
/// and details such as permissions, are not changes: reading updates the
/// access time, and refreshing for it would read the file again, forever.
pub open spec fn change(event: WatchEvent, polling: bool) -> bool {
    event.need_rescan || ({
        let written = match event.kind {
            EventKind::Create | EventKind::Remove | EventKind::Any | EventKind::Modify | EventKind::CloseWrite => true,
            EventKind::WriteTime => polling && exists|i: int|
                0 <= i < event.paths@.len() && !(#[trigger] event.paths@[i]).is_dir,
            _ => false,
        };
        written && exists|i: int| 0 <= i < event.paths@.len() && !(#[trigger] event.paths@[i]).ignored
    })
}

fn some_path(paths: &Vec<EventPath>, not_dir: bool) -> (found: bool)
    ensures
        not_dir ==> found == exists|i: int| 0 <= i < paths@.len() && !(#[trigger] paths@[i]).is_dir,
        !not_dir ==> found == exists|i: int| 0 <= i < paths@.len() && !(#[trigger] paths@[i]).ignored,
{
    let mut i: usize = 0;
    while i < paths.len()
        invariant
            i <= paths@.len(),
            not_dir ==> forall|j: int| 0 <= j < i ==> (#[trigger] paths@[j]).is_dir,
            !not_dir ==> forall|j: int| 0 <= j < i ==> (#[trigger] paths@[j]).ignored,
        decreases paths@.len() - i,
    {
        let path = paths[i];
        if (not_dir && !path.is_dir) || (!not_dir && !path.ignored) {
            return true;
        }
        i = i + 1;
    }
    false
}

/// True when the browser should refresh for an event.
pub fn is_change(event: &WatchEvent, polling: bool) -> (changed: bool)
    ensures
        changed == change(*event, polling),
{
    if event.need_rescan {
        return true;
    }
    let written = match event.kind {
        EventKind::Create | EventKind::Remove | EventKind::Any | EventKind::Modify | EventKind::CloseWrite => true,
        EventKind::WriteTime => polling && some_path(&event.paths, true),
        _ => false,
    };
    written && some_path(&event.paths, false)
}

/// True when everything the event names is still there with a write time
/// from before the watch went on, so nothing has happened to it since.
/// Dropped events name nothing to ask, or the directory they were under,
/// which says nothing about what was dropped.
pub open spec fn from_before(event: WatchEvent) -> bool {
    !event.need_rescan && event.paths@.len() > 0 && forall|i: int|
        0 <= i < event.paths@.len() ==> (#[trigger] event.paths@[i]).written_before_the_watch
}

pub fn from_before_the_watch(event: &WatchEvent) -> (old_news: bool)
    ensures
        old_news == from_before(*event),
{
    if event.need_rescan || event.paths.len() == 0 {
        return false;
    }
    let mut i: usize = 0;
    while i < event.paths.len()
        invariant
            i <= event.paths@.len(),
            forall|j: int| 0 <= j < i ==> (#[trigger] event.paths@[j]).written_before_the_watch,
        decreases event.paths@.len() - i,
    {
        if !event.paths[i].written_before_the_watch {
            return false;
        }
        i = i + 1;
    }
    true
}

/// Whether a batch of events is worth a refresh: some event in it is a
/// change, and, in the first moments of a watch, not one about files that
/// were there all along.
pub open spec fn worth_a_refresh(events: Seq<WatchEvent>, polling: bool, settling_in: bool) -> bool {
    exists|i: int|
        0 <= i < events.len() && change(#[trigger] events[i], polling) && !(settling_in && from_before(events[i]))
}

/// Whether a batch of events the watcher reported calls for a refresh. A
/// rebuild is the check's to report, once, when the new directory is there,
/// so nothing is refreshed for what arrives while the directory at the name
/// is not the one watched (`replaced`).
pub fn report_changes(events: &Vec<WatchEvent>, replaced: bool, polling: bool, settling_in: bool) -> (refresh: bool)
    ensures
        refresh == (!replaced && worth_a_refresh(events@, polling, settling_in)),
{
    if replaced {
        return false;
    }
    let mut i: usize = 0;
    let mut found = false;
    while i < events.len() && !found
        invariant
            i <= events@.len(),
            found ==> worth_a_refresh(events@, polling, settling_in),
            !found ==> forall|j: int|
                0 <= j < i ==> !(change(#[trigger] events@[j], polling) && !(settling_in && from_before(events@[j]))),
        decreases events@.len() - i,
    {
        let worth = is_change(&events[i], polling) && !(settling_in && from_before_the_watch(&events[i]));
        if worth {
            assert(change(events@[i as int], polling) && !(settling_in && from_before(events@[i as int])));
            found = true;
        }
        i = i + 1;
    }
    found
}

/// Whether the first moments of a watch are still on: the system may yet
/// hand over files written just before it went on. A poll has its own
/// account of what the files were, so it never needs this.
pub fn settling_in(polling: bool, since_watch: u64) -> (settling: bool)
    ensures
        settling == (!polling && since_watch < SETTLING_IN),
{
    !polling && since_watch < SETTLING_IN
}

/// What the name of the served directory leads to now.
#[derive(Clone, Copy, Debug, PartialEq, Eq, Structural)]
pub enum Lookup {
    Found(FileIdentity),
    /// There is nothing at the name.
    NotFound,
    /// There is something, but its number could not be read.
    Unreadable,
}

/// True when the name no longer leads to the directory the watch is on: a
/// build has taken the served directory away, or has written the new one and
/// the check has not looked yet. A directory that is there but cannot be read
/// is not one that went, and with nothing known to be watched there is
/// nothing to compare.
pub fn replaced_under_the_watch(watching: Option<FileIdentity>, now: Lookup) -> (replaced: bool)
    ensures
        replaced == match watching {
            None => false,
            Some(watched) => match now {
                Lookup::Found(id) => id != watched,
                Lookup::NotFound => true,
                Lookup::Unreadable => false,
            },
        },
{
    match watching {
        None => false,
        Some(watched) => match now {
            Lookup::Found(id) => id != watched,
            Lookup::NotFound => true,
            Lookup::Unreadable => false,
        },
    }
}

/// True when the directory looked at before the watch went on is still the
/// one there after it. Nothing does not agree with nothing: a directory gone
/// between the two looks would otherwise be announced as replaced while there
/// is nothing there, and its return would pass for nothing new.
pub fn same_directory(before: Option<FileIdentity>, after: Option<FileIdentity>) -> (same: bool)
    ensures
        same == (before is Some && before == after),
{
    match (before, after) {
        (Some(before), Some(after)) => before == after,
        _ => false,
    }
}

} // verus!

verus! {

/// What went wrong, as the watcher says it.
pub enum ProblemKind {
    /// The system has no file watches left.
    MaxFilesWatch,
    /// There is no such directory.
    PathNotFound,
    /// The system refused or failed an operation: `why` says what, in plain
    /// words, and whether it was for lack of anything at the name, or of
    /// permission.
    Io { not_found: bool, permission_denied: bool, why: String },
    /// Anything else, as the watcher writes it.
    Other { said: String },
}

/// Trouble the watcher reported, with the first path it names, if any.
pub struct Problem {
    pub kind: ProblemKind,
    pub path: Option<String>,
    /// Whether a change at that path would be ignored.
    pub path_ignored: bool,
}

pub open spec fn why_text(kind: ProblemKind) -> Seq<char> {
    match kind {
        ProblemKind::MaxFilesWatch => "the system has no file watches left — serve the build output rather than the whole project, or raise the limit"@,
        ProblemKind::PathNotFound => "there is no such directory"@,
        ProblemKind::Io { why, .. } => why@,
        ProblemKind::Other { said } => said@,
    }
}

/// Why the watcher could not be set up, in plain words. The limit is the one
/// people actually meet: every directory below the served one costs a watch,
/// and `node_modules` can use them all up.
pub fn cannot_watch(problem: &Problem) -> (why: String)
    ensures
        why@ == why_text(problem.kind),
{
    match &problem.kind {
        ProblemKind::MaxFilesWatch => {
            let mut why = String::new();
            why.append("the system has no file watches left — serve the build output rather than the whole project, or raise the limit");
            why
        },
        ProblemKind::PathNotFound => {
            let mut why = String::new();
            why.append("there is no such directory");
            why
        },
        ProblemKind::Io { why, .. } => why.clone(),
        ProblemKind::Other { said } => said.clone(),
    }
}

/// True when the look found nothing at that name.
pub open spec fn not_there(kind: ProblemKind) -> bool {
    match kind {
        ProblemKind::Io { not_found, .. } => not_found,
        ProblemKind::PathNotFound => true,
        _ => false,
    }
}

pub fn was_not_there(problem: &Problem) -> (absent: bool)
    ensures
        absent == not_there(problem.kind),
{
    match &problem.kind {
        ProblemKind::Io { not_found, .. } => *not_found,
        ProblemKind::PathNotFound => true,
        _ => false,
    }
}

/// True when the system refused to let this program read the path.
pub open spec fn refused_reading(kind: ProblemKind) -> bool {
    match kind {
        ProblemKind::Io { permission_denied, .. } => permission_denied,
        _ => false,
    }
}

pub fn may_not_read(problem: &Problem) -> (refused: bool)
    ensures
        refused == refused_reading(problem.kind),
{
    match &problem.kind {
        ProblemKind::Io { permission_denied, .. } => *permission_denied,
        _ => false,
    }
}

/// Whether a path starts at the root of the file system.
pub open spec fn rooted(p: Seq<char>) -> bool {
    p.len() > 0 && p[0] == '/'
}

/// Whether a relative path starts with the current directory, `.` alone or
/// before a slash.
pub open spec fn starts_here(p: Seq<char>) -> bool {
    !rooted(p) && p.len() > 0 && p[0] == '.' && (p.len() == 1 || p[1] == '/')
}

/// How many characters a path's start takes before its names: the root, or
/// the current directory.
pub open spec fn lead(p: Seq<char>) -> int {
    if rooted(p) || starts_here(p) {
        1
    } else {
        0
    }
}

/// The components `Path::components` gives: the root or the current
/// directory where the path starts with one, then its names.
pub open spec fn path_components(p: Seq<char>) -> Seq<Seq<char>> {
    if rooted(p) {
        seq![seq!['/']] + crate::guard::components(p)
    } else if starts_here(p) {
        seq![seq!['.']] + crate::guard::components(p)
    } else {
        crate::guard::components(p)
    }
}

/// A piece between slashes that is a name: neither empty nor `.`.
pub open spec fn named_piece(s: Seq<char>) -> bool {
    s.len() > 0 && !(s.len() == 1 && s[0] == '.')
}

/// The pieces after the `m`-th name.
pub open spec fn drop_named(pieces: Seq<Seq<char>>, m: int) -> Seq<Seq<char>>
    decreases pieces.len(),
{
    if m <= 0 || pieces.len() == 0 {
        pieces
    } else if named_piece(pieces[0]) {
        drop_named(pieces.skip(1), m - 1)
    } else {
        drop_named(pieces.skip(1), m)
    }
}

pub open spec fn trim_front_pieces(pieces: Seq<Seq<char>>) -> Seq<Seq<char>>
    decreases pieces.len(),
{
    if pieces.len() > 0 && !named_piece(pieces[0]) {
        trim_front_pieces(pieces.skip(1))
    } else {
        pieces
    }
}

pub open spec fn trim_back_pieces(pieces: Seq<Seq<char>>) -> Seq<Seq<char>>
    decreases pieces.len(),
{
    if pieces.len() > 0 && !named_piece(pieces.last()) {
        trim_back_pieces(pieces.drop_last())
    } else {
        pieces
    }
}

/// A path without the slashes and `.` pieces at its end, as
/// `Components::as_path` trims it, keeping its first `lo` characters.
pub open spec fn trim_end_text(p: Seq<char>, lo: int) -> Seq<char>
    decreases p.len(),
{
    if p.len() > lo && p.len() > 0 && p.last() == '/' {
        trim_end_text(p.drop_last(), lo)
    } else if p.len() > lo && p.len() > 0 && p.last() == '.' && (p.len() == 1 || p[p.len() - 2] == '/') {
        trim_end_text(p.drop_last(), lo)
    } else {
        p
    }
}

/// What `Path::strip_prefix` leaves of `path` once the components of `root`
/// are taken off its front, as text: with no component taken, the path
/// without what ends it; otherwise the text after the last one taken, without
/// the slashes and `.` pieces at either end, and with those in between kept.
pub open spec fn below(root: Seq<char>, path: Seq<char>) -> Seq<char> {
    let k = path_components(root).len();
    if k == 0 {
        trim_end_text(path, lead(path))
    } else {
        crate::banner::joined_with(
            trim_back_pieces(trim_front_pieces(drop_named(text::split(path, '/'), k - lead(path)))),
            "/"@,
        )
    }
}

/// A path named the short way, below the served directory the banner has
/// already named in full, as `strip_prefix` and `display` give it. That
/// directory itself, and any path not below it, keeps its whole path.
pub open spec fn short(root: Seq<char>, path: Seq<char>) -> Seq<char> {
    let above = path_components(root);
    let all = path_components(path);
    if above.len() <= all.len() && all.take(above.len() as int) == above && below(root, path).len() > 0 {
        below(root, path)
    } else {
        path
    }
}

fn is_named_piece(s: &Vec<char>) -> (named: bool)
    ensures
        named == named_piece(s@),
{
    s.len() > 0 && !(s.len() == 1 && s[0] == '.')
}

fn lead_of(p: &Vec<char>) -> (n: usize)
    ensures
        n == lead(p@),
{
    let rooted = p.len() > 0 && p[0] == '/';
    let here = !rooted && p.len() > 0 && p[0] == '.' && (p.len() == 1 || p[1] == '/');
    if rooted || here {
        1
    } else {
        0
    }
}

fn path_component_list(p: &Vec<char>) -> (comps: Vec<Vec<char>>)
    ensures
        crate::ignore::views(comps@) == path_components(p@),
{
    let names = crate::guard::component_list(p);
    let ghost named = crate::guard::components(p@);
    let mut comps: Vec<Vec<char>> = Vec::new();
    let rooted = p.len() > 0 && p[0] == '/';
    let here = !rooted && p.len() > 0 && p[0] == '.' && (p.len() == 1 || p[1] == '/');
    if rooted {
        let slash = vec!['/'];
        assert(slash@ =~= seq!['/']);
        comps.push(slash);
        assert(crate::ignore::views(comps@) =~= seq![seq!['/']]);
    } else if here {
        let dot = vec!['.'];
        assert(dot@ =~= seq!['.']);
        comps.push(dot);
        assert(crate::ignore::views(comps@) =~= seq![seq!['.']]);
    } else {
        assert(crate::ignore::views(comps@) =~= Seq::<Seq<char>>::empty());
    }
    let ghost start = crate::ignore::views(comps@);
    assert(path_components(p@) =~= start + named);
    assert(start + named.take(0) =~= start);
    let mut i: usize = 0;
    while i < names.len()
        invariant
            i <= names@.len(),
            names@.len() == named.len(),
            forall|k: int| 0 <= k < names@.len() ==> #[trigger] names@[k]@ == named[k],
            crate::ignore::views(comps@) == start + named.take(i as int),
        decreases names@.len() - i,
    {
        let ghost before = comps@;
        comps.push(names[i].clone());
        assert(crate::ignore::views(comps@) == crate::ignore::views(before).push(names@[i as int]@));
        assert(named.take(i + 1) == named.take(i as int).push(named[i as int]));
        i = i + 1;
    }
    assert(named.take(names@.len() as int) == named);
    comps
}

fn joined_pieces(pieces: &Vec<Vec<char>>, a: usize, b: usize) -> (text: String)
    requires
        a <= b <= pieces@.len(),
    ensures
        text@ == crate::banner::joined_with(crate::ignore::views(pieces@).subrange(a as int, b as int), "/"@),
{
    let ghost all = crate::ignore::views(pieces@);
    let mut text = String::new();
    let mut j = a;
    while j < b
        invariant
            a <= j <= b <= pieces@.len(),
            all == crate::ignore::views(pieces@),
            text@ == crate::banner::joined_with(all.subrange(a as int, j as int), "/"@),
        decreases b - j,
    {
        assert(all.subrange(a as int, j + 1).drop_last() == all.subrange(a as int, j as int));
        assert(all.subrange(a as int, j + 1).last() == pieces@[j as int]@);
        if j > a {
            text.append("/");
        }
        text.append(text_of(&pieces[j]).as_str());
        j = j + 1;
    }
    text
}

fn below_text(root: &Vec<char>, path: &Vec<char>, k: usize) -> (text: String)
    requires
        k == path_components(root@).len(),
        k > 0 ==> k >= lead(path@),
    ensures
        text@ == below(root@, path@),
{
    if k == 0 {
        let lo = lead_of(path);
        let mut b = path.len();
        assert(path@.subrange(0, b as int) == path@);
        while b > lo && b > 0 && (path[b - 1] == '/' || (path[b - 1] == '.' && (b == 1 || path[b - 2] == '/')))
            invariant
                b <= path@.len(),
                lo == lead(path@),
                trim_end_text(path@, lo as int) == trim_end_text(path@.subrange(0, b as int), lo as int),
            decreases b,
        {
            assert(path@.subrange(0, b as int).drop_last() == path@.subrange(0, b - 1));
            b = b - 1;
        }
        let kept = crate::ignore::copy_range(path, 0, b);
        return text_of(&kept);
    }
    let m = k - lead_of(path);
    let pieces = text::split_chars(path, '/');
    let ghost all = text::split(path@, '/');
    assert(crate::ignore::views(pieces@) == all);
    let mut i: usize = 0;
    let mut left = m;
    assert(all.skip(0) == all);
    while left > 0 && i < pieces.len()
        invariant
            i <= pieces@.len(),
            left <= m,
            all == crate::ignore::views(pieces@),
            drop_named(all, m as int) == drop_named(all.skip(i as int), left as int),
        decreases pieces@.len() - i,
    {
        assert(all.skip(i as int).skip(1) == all.skip(i + 1));
        assert(all.skip(i as int)[0] == pieces@[i as int]@);
        if is_named_piece(&pieces[i]) {
            left = left - 1;
        }
        i = i + 1;
    }
    assert(drop_named(all, m as int) == all.skip(i as int));
    let n = pieces.len();
    let mut a = i;
    assert(all.skip(i as int) == all.subrange(i as int, n as int));
    while a < n && !is_named_piece(&pieces[a])
        invariant
            i <= a <= n == pieces@.len(),
            all == crate::ignore::views(pieces@),
            trim_front_pieces(all.skip(i as int)) == trim_front_pieces(all.subrange(a as int, n as int)),
        decreases n - a,
    {
        assert(all.subrange(a as int, n as int).skip(1) == all.subrange(a + 1, n as int));
        assert(all.subrange(a as int, n as int)[0] == pieces@[a as int]@);
        a = a + 1;
    }
    let ghost front = all.subrange(a as int, n as int);
    assert(trim_front_pieces(all.skip(i as int)) == front);
    let mut b = n;
    while b > a && !is_named_piece(&pieces[b - 1])
        invariant
            a <= b <= n == pieces@.len(),
            all == crate::ignore::views(pieces@),
            front == all.subrange(a as int, n as int),
            trim_back_pieces(front) == trim_back_pieces(all.subrange(a as int, b as int)),
        decreases b - a,
    {
        assert(all.subrange(a as int, b as int).drop_last() == all.subrange(a as int, b - 1));
        assert(all.subrange(a as int, b as int).last() == pieces@[b - 1]@);
        b = b - 1;
    }
    joined_pieces(&pieces, a, b)
}

#[verifier::rlimit(50)]
pub fn short_name(root: &str, path: &str) -> (name: String)
    ensures
        name@ == short(root@, path@),
{
    let root_chars = chars_of(root);
    let path_chars = chars_of(path);
    let whole = text_of(&path_chars);
    let above = path_component_list(&root_chars);
    let all = path_component_list(&path_chars);
    let ghost above_v = crate::ignore::views(above@);
    let ghost all_v = crate::ignore::views(all@);
    if above.len() > all.len() {
        return whole;
    }
    let mut i: usize = 0;
    while i < above.len()
        invariant
            i <= above@.len() <= all@.len(),
            above_v == crate::ignore::views(above@),
            all_v == crate::ignore::views(all@),
            above_v == path_components(root@),
            all_v == path_components(path@),
            whole@ == path@,
            forall|k: int| 0 <= k < i ==> all_v[k] == above_v[k],
        decreases above@.len() - i,
    {
        assert(above_v[i as int] == above@[i as int]@);
        assert(all_v[i as int] == all@[i as int]@);
        if !text::same_chars(&all[i], &above[i]) {
            assert(all_v.take(above@.len() as int)[i as int] != above_v[i as int]);
            return whole;
        }
        i = i + 1;
    }
    assert(all_v.take(above@.len() as int) =~= above_v);
    let below_name = below_text(&root_chars, &path_chars, above.len());
    if below_name.as_str().unicode_len() == 0 {
        return whole;
    }
    below_name
}

/// The whole line to print about what one look could not read, or nothing
/// where saying anything would be noise: a path the browser never sees, or
/// one that was not there when the look reached it.
pub open spec fn look_line(root: Seq<char>, problem: Problem) -> Option<Seq<char>> {
    match problem.path {
        None => Some("Cannot look at part of the directory: "@ + why_text(problem.kind)),
        Some(path) => if problem.path_ignored || not_there(problem.kind) {
            None
        } else {
            Some("Cannot look at "@ + short(root, path@) + ": "@ + why_text(problem.kind))
        },
    }
}

#[verifier::rlimit(50)]
pub fn cannot_look(root: &str, problem: &Problem) -> (line: Option<String>)
    ensures
        line matches Some(l) ==> look_line(root@, *problem) == Some(l@),
        line is None ==> look_line(root@, *problem) is None,
{
    let why = cannot_watch(problem);
    match &problem.path {
        None => {
            let mut line = String::new();
            line.append("Cannot look at part of the directory: ");
            line.append(why.as_str());
            Some(line)
        },
        Some(path) => {
            if problem.path_ignored || was_not_there(problem) {
                return None;
            }
            let mut line = String::new();
            line.append("Cannot look at ");
            line.append(short_name(root, path.as_str()).as_str());
            line.append(": ");
            line.append(why.as_str());
            Some(line)
        },
    }
}

/// The path a problem is with: the one it names, or the served directory.
pub open spec fn named_path(root: Seq<char>, problem: Problem) -> Seq<char> {
    match problem.path {
        Some(path) => path@,
        None => root,
    }
}

/// What to say when a directory cannot be watched: which one, and why, and
/// then `after`.
pub open spec fn watch_line(root: Seq<char>, problem: Problem, after: Seq<char>) -> Seq<char> {
    "Cannot watch "@ + short(root, named_path(root, problem)) + ": "@ + why_text(problem.kind) + after
}

pub fn cannot_watch_line(root: &str, problem: &Problem, after: &str) -> (line: String)
    ensures
        line@ == watch_line(root@, *problem, after@),
{
    let named = match &problem.path {
        Some(path) => short_name(root, path.as_str()),
        None => short_name(root, root),
    };
    let mut line = String::new();
    line.append("Cannot watch ");
    line.append(named.as_str());
    line.append(": ");
    line.append(cannot_watch(problem).as_str());
    line.append(after);
    line
}

/// Why the watch could not be put on at the start, naming the directory the
/// trouble is with, which may lie below the served one: the context line,
/// `cannot watch ... for changes`, and the reason. Where one below cannot be
/// read there are two ways round, and both are worth a mention.
pub open spec fn refusal_text(root: Seq<char>, problem: Problem) -> (Seq<char>, Seq<char>) {
    let named = named_path(root, problem);
    let hint = if named != root && refused_reading(problem.kind) {
        " — --poll watches what it may, and --no-reload serves without watching"@
    } else {
        Seq::empty()
    };
    ("cannot watch "@ + named + " for changes"@, why_text(problem.kind) + hint)
}

pub fn cannot_watch_here(root: &str, problem: &Problem) -> (said: (String, String))
    ensures
        (said.0@, said.1@) == refusal_text(root@, *problem),
{
    let named = match &problem.path {
        Some(path) => path.clone(),
        None => text_of(&chars_of(root)),
    };
    let mut why = cannot_watch(problem);
    if !text::same_chars(&chars_of(named.as_str()), &chars_of(root)) && may_not_read(problem) {
        why.append(" — --poll watches what it may, and --no-reload serves without watching");
    }
    let mut context = String::new();
    context.append("cannot watch ");
    context.append(named.as_str());
    context.append(" for changes");
    (context, why)
}

/// The lines said so far, as text.
pub open spec fn lines_of(told: Seq<String>) -> Seq<Seq<char>> {
    told.map_values(|said: String| said@)
}

/// Says a line about an unreadable path once: only when it has not been said
/// before, and only while fewer than [`MOST_PROBLEMS`] have been. Returns
/// whether to say it now, and remembers it if so.
pub fn tell(told: &mut Vec<String>, line: String) -> (say: bool)
    ensures
        say == (old(told)@.len() < MOST_PROBLEMS && !lines_of(old(told)@).contains(line@)),
        say ==> final(told)@ == old(told)@.push(line),
        !say ==> final(told)@ == old(told)@,
{
    if told.len() >= MOST_PROBLEMS {
        return false;
    }
    let wanted = chars_of(line.as_str());
    let mut i: usize = 0;
    while i < told.len()
        invariant
            i <= told@.len(),
            told@ == old(told)@,
            wanted@ == line@,
            forall|k: int| 0 <= k < i ==> (#[trigger] told@[k])@ != line@,
        decreases told@.len() - i,
    {
        if text::same_chars(&chars_of(told[i].as_str()), &wanted) {
            assert(lines_of(told@)[i as int] == line@);
            return false;
        }
        i = i + 1;
    }
    assert(!lines_of(told@).contains(line@)) by {
        if lines_of(told@).contains(line@) {
            let k = choose|k: int| 0 <= k < told@.len() && #[trigger] lines_of(told@)[k] == line@;
            assert(told@[k]@ == line@);
        }
    }
    told.push(line);
    true
}

/// Nothing is said twice, and never more than [`MOST_PROBLEMS`] things.
pub proof fn law_each_problem_is_told_once(told: Seq<String>, line: String, said: bool, after: Seq<String>)
    requires
        told.len() <= MOST_PROBLEMS,
        said == (told.len() < MOST_PROBLEMS && !lines_of(told).contains(line@)),
        said ==> after == told.push(line),
        !said ==> after == told,
        forall|a: int, b: int| 0 <= a < b < told.len() ==> (#[trigger] told[a])@ != (#[trigger] told[b])@,
    ensures
        after.len() <= MOST_PROBLEMS,
        forall|a: int, b: int| 0 <= a < b < after.len() ==> (#[trigger] after[a])@ != (#[trigger] after[b])@,
{
    if said {
        assert forall|a: int, b: int| 0 <= a < b < after.len() implies (#[trigger] after[a])@ != (#[trigger] after[b])@ by {
            if b == told.len() {
                assert(lines_of(told)[a] == told[a]@);
            }
        }
    }
}

/// What the watcher's trouble calls for: lines to be told once each (what a
/// look could not read, while polling; directories that could not be watched
/// for lack of watches, otherwise), lines about a watcher that went down
/// (always said), and whether the watch must be set up again.
///
/// While polling, one path a look could not read is not a watch that went
/// down: the rest of the tree was read and nothing was dropped, so there is
/// nothing to put right, and setting the watch up again would read that path
/// again and refresh the browser every time round. Running out of watches
/// for a directory created just now leaves the rest watched: setting the
/// watch up again would run out partway through and leave less watched than
/// now.
pub struct Trouble {
    pub to_tell: Vec<String>,
    pub went_down: Vec<String>,
    pub watch_again: bool,
}

pub open spec fn out_of_watches(problem: Problem) -> bool {
    problem.kind is MaxFilesWatch
}

/// The line about a directory that could not be watched for lack of watches.
pub open spec fn out_of_watches_line(root: Seq<char>, problem: Problem) -> Seq<char> {
    watch_line(root, problem, ". New directories are not watched from here on"@)
}

/// The line about a watcher that went down.
pub open spec fn went_down_line(problem: Problem) -> Seq<char> {
    "  Cannot watch for changes: "@ + why_text(problem.kind)
}

/// The lines about running out of watches, in the order the problems came.
pub open spec fn out_of_watches_lines(root: Seq<char>, problems: Seq<Problem>) -> Seq<Seq<char>>
    decreases problems.len(),
{
    if problems.len() == 0 {
        Seq::empty()
    } else {
        let before = out_of_watches_lines(root, problems.drop_last());
        if out_of_watches(problems.last()) {
            before.push(out_of_watches_line(root, problems.last()))
        } else {
            before
        }
    }
}

/// The lines about what the looks could not read, in the order the problems
/// came, leaving out those not worth a word.
pub open spec fn look_lines(root: Seq<char>, problems: Seq<Problem>) -> Seq<Seq<char>>
    decreases problems.len(),
{
    if problems.len() == 0 {
        Seq::empty()
    } else {
        let before = look_lines(root, problems.drop_last());
        match look_line(root, problems.last()) {
            Some(line) => before.push(line),
            None => before,
        }
    }
}

/// The lines about a watcher that went down, in the order the problems came.
pub open spec fn went_down_lines(problems: Seq<Problem>) -> Seq<Seq<char>>
    decreases problems.len(),
{
    if problems.len() == 0 {
        Seq::empty()
    } else {
        let before = went_down_lines(problems.drop_last());
        if out_of_watches(problems.last()) {
            before
        } else {
            before.push(went_down_line(problems.last()))
        }
    }
}

#[verifier::rlimit(50)]
pub fn watcher_trouble(root: &str, problems: &Vec<Problem>, polling: bool) -> (trouble: Trouble)
    ensures
        polling ==> lines_of(trouble.to_tell@) == look_lines(root@, problems@),
        polling ==> trouble.went_down@.len() == 0 && !trouble.watch_again,
        !polling ==> lines_of(trouble.to_tell@) == out_of_watches_lines(root@, problems@),
        !polling ==> lines_of(trouble.went_down@) == went_down_lines(problems@),
        !polling ==> trouble.watch_again == exists|i: int|
            0 <= i < problems@.len() && !out_of_watches(#[trigger] problems@[i]),
{
    let mut tell: Vec<String> = Vec::new();
    let mut down: Vec<String> = Vec::new();
    let mut i: usize = 0;
    while i < problems.len()
        invariant
            i <= problems@.len(),
            polling ==> lines_of(tell@) == look_lines(root@, problems@.take(i as int)),
            polling ==> down@.len() == 0,
            !polling ==> lines_of(tell@) == out_of_watches_lines(root@, problems@.take(i as int)),
            !polling ==> lines_of(down@) == went_down_lines(problems@.take(i as int)),
            !polling ==> (down@.len() > 0) == exists|j: int|
                0 <= j < i && !out_of_watches(#[trigger] problems@[j]),
        decreases problems@.len() - i,
    {
        let problem = &problems[i];
        assert(problems@.take(i + 1).drop_last() == problems@.take(i as int));
        assert(problems@.take(i + 1).last() == problems@[i as int]);
        if polling {
            match cannot_look(root, problem) {
                Some(line) => {
                    tell.push(line);
                    assert(lines_of(tell@) =~= lines_of(tell@.drop_last()).push(tell@.last()@));
                },
                None => {},
            }
        } else {
            match &problem.kind {
                ProblemKind::MaxFilesWatch => {
                    let line = cannot_watch_line(root, problem, ". New directories are not watched from here on");
                    assert(out_of_watches(problems@[i as int]));
                    tell.push(line);
                    assert(lines_of(tell@) =~= lines_of(tell@.drop_last()).push(line@));
                },
                _ => {
                    let mut line = String::new();
                    line.append("  Cannot watch for changes: ");
                    line.append(cannot_watch(problem).as_str());
                    assert(!out_of_watches(problems@[i as int]));
                    down.push(line);
                    assert(lines_of(down@) =~= lines_of(down@.drop_last()).push(line@));
                },
            }
        }
        i = i + 1;
    }
    assert(problems@.take(problems@.len() as int) == problems@);
    let watch_again = !polling && down.len() > 0;
    Trouble { to_tell: tell, went_down: down, watch_again }
}

/// Why the watcher has to be set up again. Both mean changes were missed;
/// they differ only in what to call it.
#[derive(Clone, Copy, Debug, PartialEq, Eq, Structural)]
pub enum Rewatch {
    /// The name now leads to a different directory: a build deleted the old
    /// one, or renamed it away.
    Replaced,
    /// The watcher itself failed, dropping whatever it had not reported.
    WatchFailed,
}

/// What one round of the check found.
#[derive(Clone, Copy, Debug, PartialEq, Eq, Structural)]
pub enum Check {
    /// The watcher said it failed.
    WatchFailed,
    /// The watcher is gone, and with it everything to check.
    Stopped,
    /// Nothing from the watcher; the name leads to this directory now, or to
    /// none.
    Looked(Option<FileIdentity>),
}

/// What the check does about what it found.
#[derive(Clone, Copy, Debug, PartialEq, Eq, Structural)]
pub enum Supervision {
    /// Stop checking.
    Stop,
    /// Nothing to do until the next round.
    Wait,
    /// Put the watch back on the name, quietly: the directory could not be
    /// reached when the watch went on, so it may be on one that has since
    /// been replaced, but nothing is known to have changed.
    WatchAgainQuietly,
    /// The directory is back as it was after being away: say so and refresh.
    DirectoryBack,
    /// Set the watch up again, say why, and refresh.
    Rewatch(Rewatch),
}

/// The check that keeps the watch on the directory. The watch follows the
/// directory, not its name: a build that deletes and recreates it leaves the
/// watch on something nobody can reach, so the directory itself is looked at.
/// `was_missing` is whether the last look found no directory at the name.
pub fn supervise(was_missing: &mut bool, watched: Option<FileIdentity>, check: Check) -> (next: Supervision)
    ensures
        next == match check {
            Check::WatchFailed => Supervision::Rewatch(Rewatch::WatchFailed),
            Check::Stopped => Supervision::Stop,
            Check::Looked(None) => Supervision::Wait,
            Check::Looked(Some(now)) => match watched {
                Some(before) => if before != now {
                    Supervision::Rewatch(Rewatch::Replaced)
                } else if *old(was_missing) {
                    Supervision::DirectoryBack
                } else {
                    Supervision::Wait
                },
                None => Supervision::WatchAgainQuietly,
            },
        },
        *final(was_missing) == match check {
            Check::Looked(None) => true,
            Check::Looked(Some(_)) if watched is None => *old(was_missing),
            Check::Stopped => *old(was_missing),
            Check::Looked(Some(now)) => false,
            Check::WatchFailed => false,
        },
{
    match check {
        Check::WatchFailed => {
            *was_missing = false;
            Supervision::Rewatch(Rewatch::WatchFailed)
        },
        Check::Stopped => Supervision::Stop,
        Check::Looked(None) => {
            *was_missing = true;
            Supervision::Wait
        },
        Check::Looked(Some(now)) => match watched {
            Some(before) => {
                if before != now {
                    *was_missing = false;
                    Supervision::Rewatch(Rewatch::Replaced)
                } else if *was_missing {
                    *was_missing = false;
                    Supervision::DirectoryBack
                } else {
                    Supervision::Wait
                }
            },
            None => Supervision::WatchAgainQuietly,
        },
    }
}

/// The line said when the watch is set up again, before the refresh.
pub fn rewatch_line(reason: Rewatch) -> (line: &'static str)
    ensures
        line@ == match reason {
            Rewatch::Replaced => "  Directory replaced, reloading..."@,
            Rewatch::WatchFailed => "  Watching again, reloading..."@,
        },
{
    match reason {
        Rewatch::Replaced => "  Directory replaced, reloading...",
        Rewatch::WatchFailed => "  Watching again, reloading...",
    }
}

/// What came of one attempt to put the watch back on the directory.
#[derive(Clone, Copy, Debug, PartialEq, Eq, Structural)]
pub enum Attempt {
    /// The watch is on the directory that was looked at.
    Done,
    /// Nothing there to watch yet, or it changed meanwhile: try again after
    /// [`CHECK_INTERVAL`].
    Soon,
    /// The system refused: try again after [`TRIES_AGAIN_AFTER`].
    Later,
}

/// Judges an attempt to watch the directory again: the watch went on
/// (`watched`) where the directory looked at before it is still the one
/// there (`same`); it went on over something else, or failed because there
/// was nothing there (`absent`), and the next time round starts afresh; or
/// the system refused, most often a directory below that this program may not
/// read, which is said once (`told` keeps what was said) since the watch is
/// off until the system allows it.
pub fn after_attempt(watched: bool, same: bool, absent: bool, refusal: Option<String>, told: &mut Option<String>) -> (outcome: (Attempt, Option<String>))
    requires
        !watched ==> refusal is Some,
    ensures
        watched && same ==> outcome.0 == Attempt::Done && outcome.1 is None,
        watched && !same ==> outcome.0 == Attempt::Soon && outcome.1 is None,
        !watched && absent ==> outcome.0 == Attempt::Soon && outcome.1 is None,
        !watched && !absent ==> outcome.0 == Attempt::Later && (match (refusal, *old(told)) {
            (Some(line), Some(said)) => if line@ == said@ {
                outcome.1 is None && *final(told) == *old(told)
            } else {
                outcome.1 == Some(line) && *final(told) == Some(line)
            },
            (Some(line), None) => outcome.1 == Some(line) && *final(told) == Some(line),
            _ => true,
        }),
        watched || absent ==> *final(told) == *old(told),
{
    if watched {
        if same {
            return (Attempt::Done, None);
        }
        return (Attempt::Soon, None);
    }
    if absent {
        return (Attempt::Soon, None);
    }
    let line = match refusal {
        Some(line) => line,
        None => return (Attempt::Later, None),
    };
    let repeated = match told {
        Some(said) => text::same_chars(&chars_of(said.as_str()), &chars_of(line.as_str())),
        None => false,
    };
    if repeated {
        (Attempt::Later, None)
    } else {
        *told = Some(line.clone());
        (Attempt::Later, Some(line))
    }
}

} // verus!
