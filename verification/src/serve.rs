//! How a request is answered: the file service, and the layers around it.

use crate::text::{self, chars_of, push_char};
use vstd::prelude::*;

verus! {

/// The page a folder's address serves, and the app's page with `--spa`.
pub const INDEX_FILE: &'static str = "index.html";

/// What browsers may keep.
#[derive(Clone, Copy, Debug, PartialEq, Eq, Structural)]
pub enum Caching {
    /// Nothing, since any file may have just changed.
    Off,
    /// Anything, checked for changes before each use. For `--production`.
    Checked,
    /// Files under /assets/ for a year without a check, and the rest checked.
    /// For `--cache-assets`.
    AssetsForAYear,
}

} // verus!

verus! {

/// The layers around the file service, each wrapping the ones before it.
#[derive(Clone, Copy, Debug, PartialEq, Eq, Structural)]
pub enum Layer {
    /// Takes off the tags the file service puts on, which promise the exact
    /// bytes of the file.
    DropFileServiceTags,
    /// Answers "is my copy current?" by the file's version, and tags it.
    AnswerByVersion,
    /// Refuses a folder's index.html that leads out of the served directory.
    RefuseIndexPagesOutside,
    /// Serves the app's page for an address that matches no file.
    AppShell,
    /// Shows a folder's files.
    FileLists,
    /// Adds the reload script to pages.
    LiveReload,
    /// Compresses what is sent.
    Compression,
    /// Refuses addresses naming hidden files.
    RefuseHiddenFiles,
    /// Refuses what leads out of the served directory, or to something hidden.
    RefusePathsOutside,
    /// Takes off the questions that would let "nothing has changed" answer.
    AlwaysAnswerInFull,
    /// `Cache-Control: no-store`.
    NoStore,
    /// `Cache-Control: no-cache`.
    CheckBeforeUse,
    /// Keeps files under /assets/ for a year, and has the rest checked.
    KeepAssets,
    /// `X-Content-Type-Options: nosniff`.
    NoSniff,
    /// `X-Frame-Options: SAMEORIGIN`.
    SameOrigin,
    /// `Referrer-Policy: strict-origin-when-cross-origin`.
    ReferrerPolicy,
    /// Collapses repeated slashes at the start of the address into one.
    CollapseLeadingSlashes,
}

/// The layers, innermost first, for the given options: those inside the
/// refusals, compression and the two refusals, and those outside them.
pub open spec fn layer_plan(spa: bool, list: bool, caching: Caching, live_reload: bool) -> Seq<Layer> {
    inner_layers(spa, list, caching, live_reload) + seq![
        Layer::Compression,
        Layer::RefuseHiddenFiles,
        Layer::RefusePathsOutside,
    ] + outer_layers(caching)
}

fn inner_plan(spa: bool, list: bool, caching: Caching, live_reload: bool) -> (plan: Vec<Layer>)
    ensures
        plan@ == inner_layers(spa, list, caching, live_reload),
{
    let ghost versions = if caching != Caching::Off { seq![Layer::AnswerByVersion] } else { Seq::empty() };
    let ghost shell = if spa { seq![Layer::AppShell] } else { Seq::empty() };
    let ghost lists = if list { seq![Layer::FileLists] } else { Seq::empty() };
    let ghost reload = if live_reload { seq![Layer::LiveReload] } else { Seq::empty() };
    let mut plan: Vec<Layer> = Vec::new();
    plan.push(Layer::DropFileServiceTags);
    if caching != Caching::Off {
        plan.push(Layer::AnswerByVersion);
    }
    assert(plan@ =~= seq![Layer::DropFileServiceTags] + versions);
    plan.push(Layer::RefuseIndexPagesOutside);
    let ghost so_far = plan@;
    if spa {
        plan.push(Layer::AppShell);
    }
    assert(plan@ =~= so_far + shell);
    let ghost so_far = plan@;
    if list {
        plan.push(Layer::FileLists);
    }
    assert(plan@ =~= so_far + lists);
    let ghost so_far = plan@;
    if live_reload {
        plan.push(Layer::LiveReload);
    }
    assert(plan@ =~= so_far + reload);
    plan
}

fn push_outer_layers(plan: &mut Vec<Layer>, caching: Caching)
    ensures
        final(plan)@ == old(plan)@ + outer_layers(caching),
{
    match caching {
        Caching::Off => {
            plan.push(Layer::AlwaysAnswerInFull);
            plan.push(Layer::NoStore);
        },
        Caching::Checked => {
            plan.push(Layer::CheckBeforeUse);
        },
        Caching::AssetsForAYear => {
            plan.push(Layer::KeepAssets);
        },
    }
    plan.push(Layer::NoSniff);
    plan.push(Layer::SameOrigin);
    plan.push(Layer::ReferrerPolicy);
    plan.push(Layer::CollapseLeadingSlashes);
    assert(final(plan)@ =~= old(plan)@ + outer_layers(caching));
}

/// The file service and the layers around it, innermost first. Each layer
/// wraps the ones before it, and the order matters:
/// - the file service's own tags come off right next to it, so the only tags
///   that reach a browser are the ones version checks add;
/// - version checks sit just outside that, inside every refusal, so nothing
///   refused is ever answered as unchanged; with nothing kept there is no
///   copy to ask about, and no version check;
/// - the index.html check sits just outside them, so `?list` never reaches it;
/// - the refusals sit inside the headers, so a refusal gets the same headers;
/// - the app shell and file lists sit inside live reload, so their pages get
///   the reload script;
/// - file lists sit outside the app shell, so an app route with the same name
///   as a folder still gets the app;
/// - leading slashes are collapsed outside everything, so every layer sees the
///   same address.
pub fn layers(spa: bool, list: bool, caching: Caching, live_reload: bool) -> (plan: Vec<Layer>)
    ensures
        plan@ == layer_plan(spa, list, caching, live_reload),
{
    let mut plan = inner_plan(spa, list, caching, live_reload);
    plan.push(Layer::Compression);
    plan.push(Layer::RefuseHiddenFiles);
    plan.push(Layer::RefusePathsOutside);
    push_outer_layers(&mut plan, caching);
    assert(plan@ =~= layer_plan(spa, list, caching, live_reload));
    plan
}

/// The layers a plan puts inside the refusals, innermost first.
pub open spec fn inner_layers(spa: bool, list: bool, caching: Caching, live_reload: bool) -> Seq<Layer> {
    let versions = if caching != Caching::Off { seq![Layer::AnswerByVersion] } else { Seq::empty() };
    let shell = if spa { seq![Layer::AppShell] } else { Seq::empty() };
    let lists = if list { seq![Layer::FileLists] } else { Seq::empty() };
    let reload = if live_reload { seq![Layer::LiveReload] } else { Seq::empty() };
    seq![Layer::DropFileServiceTags] + versions + seq![Layer::RefuseIndexPagesOutside] + shell + lists + reload
}

/// The layers a plan puts outside the refusals, innermost first.
pub open spec fn outer_layers(caching: Caching) -> Seq<Layer> {
    let cache = match caching {
        Caching::Off => seq![Layer::AlwaysAnswerInFull, Layer::NoStore],
        Caching::Checked => seq![Layer::CheckBeforeUse],
        Caching::AssetsForAYear => seq![Layer::KeepAssets],
    };
    cache + seq![Layer::NoSniff, Layer::SameOrigin, Layer::ReferrerPolicy, Layer::CollapseLeadingSlashes]
}

pub open spec fn refusal(layer: Layer) -> bool {
    layer == Layer::RefuseHiddenFiles || layer == Layer::RefusePathsOutside
}

/// Nothing refused is ever answered as unchanged, and every refusal gets the
/// same headers as any other answer: in every plan, each refusal sits outside
/// the version check and inside every header.
pub proof fn law_refusals_sit_between_versions_and_headers(spa: bool, list: bool, caching: Caching, live_reload: bool)
    ensures ({
        let plan = layer_plan(spa, list, caching, live_reload);
        forall|i: int, j: int|
            #![trigger plan[i], plan[j]] 0 <= i < plan.len() && 0 <= j < plan.len() && refusal(plan[j]) ==> (plan[i]
                == Layer::AnswerByVersion ==> i < j) && ((plan[i] == Layer::NoSniff || plan[i] == Layer::NoStore
                || plan[i] == Layer::CheckBeforeUse || plan[i] == Layer::KeepAssets) ==> j < i)
    }),
{
    let plan = layer_plan(spa, list, caching, live_reload);
    let inner = inner_layers(spa, list, caching, live_reload);
    let outer = outer_layers(caching);
    assert forall|i: int, j: int|
        #![trigger plan[i], plan[j]] 0 <= i < plan.len() && 0 <= j < plan.len() && refusal(plan[j]) implies (plan[i]
            == Layer::AnswerByVersion ==> i < j) && ((plan[i] == Layer::NoSniff || plan[i] == Layer::NoStore
            || plan[i] == Layer::CheckBeforeUse || plan[i] == Layer::KeepAssets) ==> j < i) by {
        assert(forall|k: int| 0 <= k < inner.len() ==> !refusal(#[trigger] inner[k]) && inner[k] != Layer::NoSniff
            && inner[k] != Layer::NoStore && inner[k] != Layer::CheckBeforeUse && inner[k] != Layer::KeepAssets);
        assert(forall|k: int| 0 <= k < outer.len() ==> !refusal(#[trigger] outer[k]) && outer[k]
            != Layer::AnswerByVersion);
        if j < inner.len() {
            assert(plan[j] == inner[j]);
        } else if j >= inner.len() + 3 {
            assert(plan[j] == outer[j - inner.len() - 3]);
        }
        if i < inner.len() {
            assert(plan[i] == inner[i]);
        } else if i >= inner.len() + 3 {
            assert(plan[i] == outer[i - inner.len() - 3]);
        }
    }
}

/// While working, nothing is kept: every answer says not to store it, the
/// questions that would let "nothing has changed" answer come off, and no
/// version is ever checked or any file kept.
pub proof fn law_while_working_nothing_is_kept(spa: bool, list: bool, live_reload: bool)
    ensures ({
        let plan = layer_plan(spa, list, Caching::Off, live_reload);
        &&& plan.contains(Layer::NoStore)
        &&& plan.contains(Layer::AlwaysAnswerInFull)
        &&& !plan.contains(Layer::AnswerByVersion)
        &&& !plan.contains(Layer::CheckBeforeUse)
        &&& !plan.contains(Layer::KeepAssets)
    }),
{
    let plan = layer_plan(spa, list, Caching::Off, live_reload);
    let inner = inner_layers(spa, list, Caching::Off, live_reload);
    let outer = outer_layers(Caching::Off);
    assert(plan[inner.len() + 3int] == Layer::AlwaysAnswerInFull);
    assert(plan[inner.len() + 4int] == Layer::NoStore);
    assert forall|k: int| 0 <= k < plan.len() implies {
        let layer = #[trigger] plan[k];
        layer != Layer::AnswerByVersion && layer != Layer::CheckBeforeUse && layer != Layer::KeepAssets
    } by {
        if k < inner.len() {
            assert(plan[k] == inner[k]);
        } else if k >= inner.len() + 3 {
            assert(plan[k] == outer[k - inner.len() - 3]);
        }
    }
}

/// Where a build puts scripts, styles and images. `--cache-assets` takes a
/// name here to change whenever the file's contents do.
pub const ASSETS: &'static str = "/assets/";

/// A year, the longest any browser is asked to keep a file.
pub const KEEP_FOR_A_YEAR: &'static str = "public, max-age=31536000, immutable";

/// Keep it, but ask the server whether it changed before using it.
pub const CHECK_BEFORE_USE: &'static str = "no-cache";

pub open spec fn under_assets(path: Seq<char>) -> bool {
    ASSETS@.len() <= path.len() && path.take(ASSETS@.len() as int) == ASSETS@
}

pub open spec fn ends_in_a_slash(path: Seq<char>) -> bool {
    path.len() > 0 && path.last() == '/'
}

/// With `--cache-assets`: a file under /assets/ that is really there (sent,
/// or "you already have it") is kept for a year, and everything else is
/// checked. An address ending in `/` is a folder, whose page can change, and
/// one missing during a deploy would otherwise be remembered as missing for a
/// year.
pub open spec fn asset_rule(path: Seq<char>, status: u16) -> Seq<char> {
    if under_assets(path) && !ends_in_a_slash(path) && ((200 <= status < 300) || status == 304) {
        KEEP_FOR_A_YEAR@
    } else {
        CHECK_BEFORE_USE@
    }
}

/// The `Cache-Control` an answer to `path` with `status` gets with
/// `--cache-assets`.
pub fn keep_assets(path: &str, status: u16) -> (rule: &'static str)
    ensures
        rule@ == asset_rule(path@, status),
{
    let chars = chars_of(path);
    let assets = chars_of(ASSETS);
    let asset = text::starts_with_chars(&chars, &assets) && !(chars.len() > 0 && chars[chars.len() - 1] == '/');
    let there = (200 <= status && status < 300) || status == 304;
    if asset && there {
        KEEP_FOR_A_YEAR
    } else {
        CHECK_BEFORE_USE
    }
}

/// Whether a character counts as a slash in front of an address: browsers
/// read `/\` as `//`.
pub open spec fn slash(c: char) -> bool {
    c == '/' || c == '\\'
}

/// How many slashes, of either kind, `text` starts with.
pub open spec fn leading_slashes(text: Seq<char>) -> nat
    decreases text.len(),
{
    if text.len() > 0 && slash(text[0]) {
        1 + leading_slashes(text.skip(1))
    } else {
        0
    }
}

/// The address with its leading slashes collapsed into one, where it had more
/// than one: `/` and the rest, with the query as it was.
pub open spec fn collapsed(path: Seq<char>, query: Option<Seq<char>>) -> Option<Seq<char>> {
    let count = leading_slashes(path);
    if count > 1 {
        let rest = path.skip(count as int);
        Some(match query {
            Some(query) => seq!['/'] + rest + seq!['?'] + query,
            None => seq!['/'] + rest,
        })
    } else {
        None
    }
}

/// Collapses repeated slashes at the start of the address into one, as nginx
/// and Python's server do. Otherwise, with a folder named `example.com`,
/// `//example.com` redirects to `//example.com/`, which a browser treats as
/// another site. Backslashes count too: browsers read `/\` as `//`. `None`
/// leaves the address as it is.
pub fn collapse_leading_slashes(path: &str, query: Option<&str>) -> (address: Option<String>)
    ensures
        address matches Some(a) ==> collapsed(path@, match query {
            Some(q) => Some(q@),
            None => None,
        }) == Some(a@),
        address is None ==> collapsed(path@, match query {
            Some(q) => Some(q@),
            None => None,
        }) is None,
{
    let chars = chars_of(path);
    let mut count: usize = 0;
    assert(chars@.skip(0) == chars@);
    while count < chars.len() && (chars[count] == '/' || chars[count] == '\\')
        invariant
            count <= chars.len(),
            chars@ == path@,
            leading_slashes(chars@) == count + leading_slashes(chars@.skip(count as int)),
        decreases chars.len() - count,
    {
        assert(chars@.skip(count as int).skip(1) == chars@.skip(count + 1));
        count = count + 1;
    }
    if count <= 1 {
        return None;
    }
    let mut address = String::new();
    push_char(&mut address, '/');
    let mut i = count;
    while i < chars.len()
        invariant
            count <= i <= chars.len(),
            address@ == seq!['/'] + chars@.subrange(count as int, i as int),
        decreases chars.len() - i,
    {
        push_char(&mut address, chars[i]);
        i = i + 1;
    }
    assert(chars@.subrange(count as int, chars.len() as int) == chars@.skip(count as int));
    match query {
        Some(query) => {
            push_char(&mut address, '?');
            address.append(query);
        },
        None => {},
    }
    Some(address)
}

proof fn lemma_leading_slashes(text: Seq<char>)
    ensures
        leading_slashes(text) <= text.len(),
        forall|k: int| 0 <= k < leading_slashes(text) ==> slash(#[trigger] text[k]),
        leading_slashes(text) < text.len() ==> !slash(text[leading_slashes(text) as int]),
    decreases text.len(),
{
    if text.len() > 0 && slash(text[0]) {
        lemma_leading_slashes(text.skip(1));
        assert forall|k: int| 0 <= k < leading_slashes(text) implies slash(#[trigger] text[k]) by {
            if k > 0 {
                assert(text[k] == text.skip(1)[k - 1]);
            }
        }
        if leading_slashes(text) < text.len() {
            assert(text[leading_slashes(text) as int] == text.skip(1)[leading_slashes(text.skip(1)) as int]);
        }
    }
}

/// Collapsed, an address starts with one slash and only one, so no layer can
/// read it as the way to another site.
pub proof fn law_one_slash_in_front(path: Seq<char>, query: Option<Seq<char>>)
    requires
        collapsed(path, query) is Some,
    ensures
        collapsed(path, query)->0.len() > 0,
        collapsed(path, query)->0[0] == '/',
        collapsed(path, query)->0.len() > 1 ==> !slash(collapsed(path, query)->0[1]),
{
    lemma_leading_slashes(path);
    let count = leading_slashes(path);
    let rest = path.skip(count as int);
    if rest.len() > 0 {
        assert(rest[0] == path[count as int]);
    }
    let address = collapsed(path, query)->0;
    match query {
        Some(q) => {
            assert(address == seq!['/'] + rest + seq!['?'] + q);
            if rest.len() > 0 {
                assert(address[1] == rest[0]);
            } else {
                assert(address[1] == '?');
            }
        },
        None => {
            assert(address == seq!['/'] + rest);
            if rest.len() > 0 {
                assert(address[1] == rest[0]);
            }
        },
    }
}

/// Whether a request asks for a page: its `Accept` names HTML. A header that
/// is not text (`None`) does not.
pub fn wants_page(accept: Option<&str>) -> (wants: bool)
    ensures
        wants == match accept {
            Some(accept) => contains(accept@, "text/html"@),
            None => false,
        },
{
    match accept {
        Some(accept) => contains_text(accept, "text/html"),
        None => false,
    }
}

/// Whether `part` appears somewhere in `text`.
pub open spec fn contains(text: Seq<char>, part: Seq<char>) -> bool {
    exists|i: int| 0 <= i <= text.len() - part.len() && #[trigger] text.subrange(i, i + part.len()) == part
}

fn contains_text(text: &str, part: &str) -> (found: bool)
    ensures
        found == contains(text@, part@),
{
    let chars = chars_of(text);
    let wanted = chars_of(part);
    if wanted.len() > chars.len() {
        return false;
    }
    let last = chars.len() - wanted.len();
    let mut i: usize = 0;
    while i <= last
        invariant
            wanted.len() <= chars.len(),
            last == chars.len() - wanted.len(),
            chars@ == text@,
            wanted@ == part@,
            forall|j: int| 0 <= j < i ==> #[trigger] chars@.subrange(j, j + wanted@.len()) != wanted@,
        decreases chars.len() - i,
    {
        let mut k: usize = 0;
        let mut same = true;
        assert(chars@.subrange(i as int, i as int) =~= wanted@.take(0));
        while k < wanted.len()
            invariant
                i + wanted.len() <= chars.len(),
                k <= wanted.len(),
                same == (chars@.subrange(i as int, i + k) == wanted@.take(k as int)),
            decreases wanted.len() - k,
        {
            if same && chars[i + k] != wanted[k] {
                assert(chars@.subrange(i as int, i + k + 1)[k as int] != wanted@.take(k + 1)[k as int]);
                same = false;
            } else if same {
                assert(chars@.subrange(i as int, i + k + 1) =~= chars@.subrange(i as int, i + k).push(chars@[i + k]));
                assert(wanted@.take(k + 1) =~= wanted@.take(k as int).push(wanted@[k as int]));
            } else {
                assert(chars@.subrange(i as int, i + k + 1).take(k as int) =~= chars@.subrange(i as int, i + k));
                assert(wanted@.take(k + 1).take(k as int) =~= wanted@.take(k as int));
            }
            k = k + 1;
        }
        assert(wanted@.take(wanted.len() as int) == wanted@);
        if same {
            return true;
        }
        assert(chars@.subrange(i as int, i + wanted@.len()) != wanted@);
        if i == last {
            return false;
        }
        i = i + 1;
    }
    false
}

/// Whether an address could be one of the app's routes: anything under
/// /assets/ is a built file, never a route. Handing the app back there could
/// leave the browser keeping a page at that address for a year.
pub fn could_be_a_route(path: &str) -> (route: bool)
    ensures
        route == !under_assets(path@),
{
    let chars = chars_of(path);
    let assets = chars_of(ASSETS);
    !text::starts_with_chars(&chars, &assets)
}

/// With `--spa`, whether the answer to a request is replaced by the app's
/// page: only where nothing else was found (404), for a page request, at an
/// address that could be a route. A missing script or image still gets its
/// 404, rather than HTML the browser then refuses to run.
pub fn answers_with_the_app(status: u16, wants_page: bool, could_be_a_route: bool) -> (app: bool)
    ensures
        app == (status == 404 && wants_page && could_be_a_route),
{
    status == 404 && wants_page && could_be_a_route
}

/// What came of looking for the app's page.
#[derive(Clone, Copy, Debug, PartialEq, Eq, Structural)]
pub enum PageLook {
    /// It was read.
    Found,
    /// There is nothing at its name.
    Gone,
    /// It is there but could not be read.
    CannotBeRead,
    /// It is a link the server refuses, out of the directory or to something
    /// hidden.
    LeadsOut,
}

pub open spec fn why_missing(look: PageLook) -> Seq<char> {
    match look {
        PageLook::Gone => "is gone"@,
        PageLook::CannotBeRead => "cannot be read"@,
        _ => "leads to a file that is never served"@,
    }
}

/// After looking for the app's page: whether it is now thought missing, and
/// the line to say about it. It is said once each time the page goes, not
/// once for each address: only when it was not already thought missing.
pub fn after_looking(missing: &mut bool, look: PageLook) -> (said: Option<String>)
    ensures
        *final(missing) == (look != PageLook::Found),
        said is Some <==> (look != PageLook::Found && !*old(missing)),
        said matches Some(line) ==> line@ == "  index.html "@ + why_missing(look) + ", so the app will not load"@,
{
    if look == PageLook::Found {
        *missing = false;
        return None;
    }
    let was_missing = *missing;
    *missing = true;
    if was_missing {
        return None;
    }
    let mut line = String::new();
    line.append("  index.html ");
    match look {
        PageLook::Gone => line.append("is gone"),
        PageLook::CannotBeRead => line.append("cannot be read"),
        _ => line.append("leads to a file that is never served"),
    }
    line.append(", so the app will not load");
    Some(line)
}

/// While the app's page is thought missing, any other answer is a moment to
/// look whether it is back; `there` is what that look found.
pub fn after_passing(missing: &mut bool, there: bool)
    ensures
        *final(missing) == (*old(missing) && !there),
{
    if *missing && there {
        *missing = false;
    }
}

/// How the app's page is sent, once read: "not modified" when versions are
/// checked and the browser's copy is the page's version, and otherwise the
/// page, tagged where versions are checked and the page's version is known.
#[derive(Clone, Copy, Debug, PartialEq, Eq, Structural)]
pub enum PageAnswer {
    NotModified,
    Page { tagged: bool },
}

pub fn app_page_answer(checks_versions: bool, version: Option<&crate::version::Version>, if_none_match: Option<Option<&str>>) -> (answer: PageAnswer)
    ensures
        answer == match version {
            Some(v) if checks_versions => if match crate::version::header_view(if_none_match) {
                Some(tags) => crate::version::named_by(v.tag@, tags),
                None => false,
            } {
                PageAnswer::NotModified
            } else {
                PageAnswer::Page { tagged: true }
            },
            _ => PageAnswer::Page { tagged: false },
        },
{
    match version {
        Some(v) if checks_versions => {
            let named = match if_none_match {
                Some(tags) => v.is_named_in(tags),
                None => false,
            };
            if named {
                PageAnswer::NotModified
            } else {
                PageAnswer::Page { tagged: true }
            }
        },
        _ => PageAnswer::Page { tagged: false },
    }
}

} // verus!
