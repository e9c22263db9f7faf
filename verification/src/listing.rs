//! The entries of a folder's list, in the order it shows them.

use crate::list::SinceEpoch;
use crate::text::{self, chars_of};
use vstd::prelude::*;

verus! {

/// A folder's entry, as its list shows it.
pub struct Entry {
    pub name: String,
    pub is_folder: bool,
    pub size: u64,
    pub modified: Option<SinceEpoch>,
}

/// An entry as the contracts see it, its name taken as text.
pub ghost struct EntryView {
    pub name: Seq<char>,
    pub is_folder: bool,
    pub size: u64,
    pub modified: Option<SinceEpoch>,
}

impl View for Entry {
    type V = EntryView;

    open spec fn view(&self) -> EntryView {
        EntryView { name: self.name@, is_folder: self.is_folder, size: self.size, modified: self.modified }
    }
}

/// What the system says an entry is, with links followed.
pub struct Details {
    pub is_dir: bool,
    pub is_file: bool,
    pub size: u64,
    pub modified: Option<SinceEpoch>,
}

/// One entry as reading a folder found it.
pub struct Found {
    /// Its name, where that is UTF-8: no address can reach one that is not.
    pub name: Option<String>,
    /// Whether it is a link.
    pub is_link: bool,
    /// Where it leads once links are followed, `None` where that leads
    /// nowhere. Only read for a link.
    pub resolved: Option<String>,
    /// What it is once links are followed; `None` where the system cannot
    /// say, as for a broken link.
    pub details: Option<Details>,
}

pub open spec fn resolved_view(found: Found) -> Option<Seq<char>> {
    match found.resolved {
        Some(path) => Some(path@),
        None => None,
    }
}

/// Whether the list shows a found entry: it has a name an address can reach,
/// the server would serve it, and it is a file or a folder.
pub open spec fn listed(root: Seq<char>, found: Found) -> bool {
    &&& found.name is Some
    &&& !crate::guard::hidden(found.name->0@)
    &&& found.is_link ==> crate::guard::served(root, resolved_view(found))
    &&& found.details matches Some(d) && (d.is_dir || d.is_file)
}

/// The entry a listed one shows as.
pub open spec fn entry_for(found: Found) -> EntryView {
    EntryView {
        name: found.name->0@,
        is_folder: found.details->0.is_dir,
        size: found.details->0.size,
        modified: found.details->0.modified,
    }
}

/// The entries shown, in the order they were found.
pub open spec fn kept(root: Seq<char>, found: Seq<Found>) -> Seq<EntryView>
    decreases found.len(),
{
    if found.len() == 0 {
        Seq::empty()
    } else {
        let before = kept(root, found.drop_last());
        if listed(root, found.last()) {
            before.push(entry_for(found.last()))
        } else {
            before
        }
    }
}

/// Whether `a` comes before `b`, character by character, a text before any
/// longer one it starts.
pub open spec fn chars_before(a: Seq<char>, b: Seq<char>) -> bool
    decreases a.len(),
{
    if a.len() == 0 {
        b.len() > 0
    } else if b.len() == 0 {
        false
    } else if a[0] != b[0] {
        (a[0] as int) < (b[0] as int)
    } else {
        chars_before(a.drop_first(), b.drop_first())
    }
}

/// What `str::to_lowercase` makes of a text.
pub uninterp spec fn lowercased(text: Seq<char>) -> Seq<char>;

/// `str::to_lowercase`, from std: Unicode's lowercase mapping, which takes
/// pages to state, so the contract claims only that the result is what the
/// name `lowercased` gives for the text, the same for the same text.
#[verifier::external_body]
pub(crate) fn lowercase(text: &str) -> (lower: String)
    ensures
        lower@ == lowercased(text@),
{
    text.to_lowercase()
}

/// The order of a list: folders first, then by name with case set aside,
/// then by name.
pub open spec fn listed_before(a: EntryView, b: EntryView) -> bool {
    if a.is_folder != b.is_folder {
        a.is_folder
    } else if lowercased(a.name) != lowercased(b.name) {
        chars_before(lowercased(a.name), lowercased(b.name))
    } else {
        chars_before(a.name, b.name)
    }
}

proof fn lemma_chars_before_skip(a: Seq<char>, b: Seq<char>, i: int)
    requires
        0 <= i <= a.len(),
        i <= b.len(),
        a.take(i) == b.take(i),
    ensures
        chars_before(a, b) == chars_before(a.skip(i), b.skip(i)),
    decreases i,
{
    if i > 0 {
        assert(a[0] == a.take(i)[0]);
        assert(b[0] == b.take(i)[0]);
        assert(a.drop_first().take(i - 1) == a.take(i).drop_first());
        assert(b.drop_first().take(i - 1) == b.take(i).drop_first());
        lemma_chars_before_skip(a.drop_first(), b.drop_first(), i - 1);
        assert(a.drop_first().skip(i - 1) == a.skip(i));
        assert(b.drop_first().skip(i - 1) == b.skip(i));
    } else {
        assert(a.skip(0) == a);
        assert(b.skip(0) == b);
    }
}

fn chars_less(a: &Vec<char>, b: &Vec<char>) -> (less: bool)
    ensures
        less == chars_before(a@, b@),
{
    let mut i: usize = 0;
    while i < a.len() && i < b.len() && a[i] == b[i]
        invariant
            i <= a@.len(),
            i <= b@.len(),
            a@.take(i as int) == b@.take(i as int),
        decreases a@.len() - i,
    {
        assert(a@.take(i + 1) == a@.take(i as int).push(a@[i as int]));
        assert(b@.take(i + 1) == b@.take(i as int).push(b@[i as int]));
        i = i + 1;
    }
    proof {
        lemma_chars_before_skip(a@, b@, i as int);
    }
    if i == a.len() {
        assert(a@.skip(i as int).len() == 0);
        i < b.len()
    } else if i == b.len() {
        assert(b@.skip(i as int).len() == 0);
        false
    } else {
        assert(a@.skip(i as int)[0] == a@[i as int]);
        assert(b@.skip(i as int)[0] == b@[i as int]);
        a[i] < b[i]
    }
}

proof fn lemma_chars_before_strict(a: Seq<char>, b: Seq<char>)
    ensures
        chars_before(a, b) ==> !chars_before(b, a),
        a != b ==> chars_before(a, b) || chars_before(b, a),
        !chars_before(a, a),
    decreases a.len(),
{
    if a.len() > 0 && b.len() > 0 && a[0] == b[0] {
        lemma_chars_before_strict(a.drop_first(), b.drop_first());
        if a != b {
            assert(a == seq![a[0]] + a.drop_first());
            assert(b == seq![b[0]] + b.drop_first());
        }
    }
    if a.len() > 0 {
        lemma_chars_before_strict(a.drop_first(), a.drop_first());
    }
    if a.len() == 0 && b.len() == 0 {
        assert(a == b);
    }
}

proof fn lemma_chars_before_transitive(a: Seq<char>, b: Seq<char>, c: Seq<char>)
    requires
        chars_before(a, b),
        chars_before(b, c),
    ensures
        chars_before(a, c),
    decreases a.len(),
{
    if a.len() > 0 && b.len() > 0 && c.len() > 0 && a[0] == b[0] && b[0] == c[0] {
        lemma_chars_before_transitive(a.drop_first(), b.drop_first(), c.drop_first());
    }
}

/// The list's order is a strict order: never both ways, and the same way
/// through a third.
pub proof fn lemma_listed_before_strict(a: EntryView, b: EntryView, c: EntryView)
    ensures
        listed_before(a, b) ==> !listed_before(b, a),
        !listed_before(a, a),
        listed_before(a, b) && listed_before(b, c) ==> listed_before(a, c),
{
    lemma_chars_before_strict(a.name, b.name);
    lemma_chars_before_strict(lowercased(a.name), lowercased(b.name));
    lemma_chars_before_strict(a.name, a.name);
    lemma_chars_before_strict(lowercased(a.name), lowercased(a.name));
    if listed_before(a, b) && listed_before(b, c) {
        if a.is_folder == b.is_folder && b.is_folder == c.is_folder {
            if lowercased(a.name) != lowercased(b.name) && lowercased(b.name) != lowercased(c.name) {
                lemma_chars_before_transitive(lowercased(a.name), lowercased(b.name), lowercased(c.name));
                lemma_chars_before_strict(lowercased(a.name), lowercased(c.name));
            } else if lowercased(a.name) == lowercased(b.name) && lowercased(b.name) == lowercased(c.name) {
                lemma_chars_before_transitive(a.name, b.name, c.name);
            }
        }
    }
}

/// Where an entry goes among ones already in order: after every one it does
/// not come before, so entries in the same place keep the order they came in.
pub open spec fn place(sorted: Seq<EntryView>, entry: EntryView) -> nat
    decreases sorted.len(),
{
    if sorted.len() == 0 {
        0
    } else if listed_before(entry, sorted[0]) {
        0
    } else {
        1 + place(sorted.drop_first(), entry)
    }
}

/// Entries in the list's order, each put in its place in turn.
pub open spec fn in_order(entries: Seq<EntryView>) -> Seq<EntryView>
    decreases entries.len(),
{
    if entries.len() == 0 {
        Seq::empty()
    } else {
        let sorted = in_order(entries.drop_last());
        sorted.insert(place(sorted, entries.last()) as int, entries.last())
    }
}

proof fn lemma_place(sorted: Seq<EntryView>, entry: EntryView)
    ensures
        place(sorted, entry) <= sorted.len(),
        forall|k: int| 0 <= k < place(sorted, entry) ==> !listed_before(entry, #[trigger] sorted[k]),
        place(sorted, entry) < sorted.len() ==> listed_before(entry, sorted[place(sorted, entry) as int]),
    decreases sorted.len(),
{
    if sorted.len() > 0 && !listed_before(entry, sorted[0]) {
        lemma_place(sorted.drop_first(), entry);
        assert forall|k: int| 0 <= k < place(sorted, entry) implies !listed_before(entry, #[trigger] sorted[k]) by {
            if k > 0 {
                assert(sorted[k] == sorted.drop_first()[k - 1]);
            }
        }
    }
}

/// Whether entries are in the list's order: none comes before one ahead of it.
pub open spec fn in_list_order(entries: Seq<EntryView>) -> bool {
    forall|i: int, j: int| 0 <= i < j < entries.len() ==> !listed_before(#[trigger] entries[j], #[trigger] entries[i])
}

/// A list holds the entries it was given, each once, folders first and then
/// by name.
#[verifier::rlimit(50)]
pub proof fn law_a_list_is_in_order(entries: Seq<EntryView>)
    ensures
        in_order(entries).to_multiset() == entries.to_multiset(),
        in_list_order(in_order(entries)),
        forall|i: int, j: int|
            0 <= i < j < entries.len() && (#[trigger] in_order(entries)[j]).is_folder
                ==> (#[trigger] in_order(entries)[i]).is_folder,
    decreases entries.len(),
{
    broadcast use vstd::seq_lib::to_multiset_insert, vstd::seq_lib::to_multiset_len;

    if entries.len() > 0 {
        let rest = entries.drop_last();
        let e = entries.last();
        law_a_list_is_in_order(rest);
        let sorted = in_order(rest);
        lemma_place(sorted, e);
        let p = place(sorted, e) as int;
        let result = sorted.insert(p, e);
        assert(in_order(entries) == result);
        assert(entries == rest.push(e));
        vstd::seq_lib::to_multiset_build(rest, e);
        assert(result.to_multiset() == sorted.to_multiset().insert(e));
        assert(sorted.to_multiset().len() == sorted.len());
        assert(rest.to_multiset().len() == rest.len());
        assert(sorted.len() == rest.len());
        assert(result.len() == entries.len());
        assert forall|i: int, j: int| 0 <= i < j < result.len() implies !listed_before(
            #[trigger] result[j],
            #[trigger] result[i],
        ) by {
            if j < p {
                assert(result[j] == sorted[j] && result[i] == sorted[i]);
            } else if j == p {
                assert(result[i] == sorted[i]);
            } else if i == p {
                assert(result[j] == sorted[j - 1]);
                lemma_listed_before_strict(sorted[j - 1], e, sorted[p]);
                lemma_listed_before_strict(sorted[p], sorted[p], sorted[p]);
                if j - 1 > p {
                    assert(!listed_before(sorted[j - 1], sorted[p]));
                }
            } else if i < p {
                assert(result[i] == sorted[i] && result[j] == sorted[j - 1]);
            } else {
                assert(result[i] == sorted[i - 1] && result[j] == sorted[j - 1]);
            }
        }
        assert forall|i: int, j: int|
            0 <= i < j < entries.len() && (#[trigger] in_order(entries)[j]).is_folder
                implies (#[trigger] in_order(entries)[i]).is_folder by {
            assert(!listed_before(result[j], result[i]));
        }
    } else {
        assert(entries == Seq::<EntryView>::empty());
        assert(in_order(entries) == Seq::<EntryView>::empty());
    }
}

fn lowercase_chars(name: &String) -> (lower: Vec<char>)
    ensures
        lower@ == lowercased(name@),
{
    chars_of(lowercase(name.as_str()).as_str())
}

fn comes_before(a: &Entry, a_lower: &Vec<char>, b: &Entry, b_lower: &Vec<char>) -> (before: bool)
    requires
        a_lower@ == lowercased(a.name@),
        b_lower@ == lowercased(b.name@),
    ensures
        before == listed_before(a@, b@),
{
    if a.is_folder != b.is_folder {
        return a.is_folder;
    }
    if !text::same_chars(a_lower, b_lower) {
        return chars_less(a_lower, b_lower);
    }
    chars_less(&chars_of(a.name.as_str()), &chars_of(b.name.as_str()))
}

/// The entries of a folder that the server would serve, folders first, then
/// by name: the ones found with a name an address can reach, that are not
/// hidden, that are not links to what is never served, and that are files or
/// folders once links are followed.
#[verifier::rlimit(50)]
pub fn read(root: &str, found: &Vec<Found>) -> (entries: Vec<Entry>)
    ensures
        entries@.map_values(|entry: Entry| entry@) == in_order(kept(root@, found@)),
{
    let mut entries: Vec<Entry> = Vec::new();
    let mut lowers: Vec<Vec<char>> = Vec::new();
    let mut i: usize = 0;
    while i < found.len()
        invariant
            i <= found@.len(),
            entries@.map_values(|entry: Entry| entry@) == in_order(kept(root@, found@.take(i as int))),
            lowers@.len() == entries@.len(),
            forall|k: int| 0 <= k < entries@.len() ==> (#[trigger] lowers@[k])@ == lowercased(entries@[k].name@),
        decreases found@.len() - i,
    {
        assert(found@.take(i + 1).drop_last() == found@.take(i as int));
        assert(found@.take(i + 1).last() == found@[i as int]);
        let this = &found[i];
        let shown = match (&this.name, &this.details) {
            (Some(name), Some(details)) => {
                let reachable = !crate::guard::is_hidden(name.as_str()) && (!this.is_link
                    || crate::guard::may_be_served(
                    root,
                    match &this.resolved {
                        Some(path) => Some(path.as_str()),
                        None => None,
                    },
                ));
                if reachable && (details.is_dir || details.is_file) {
                    Some(Entry { name: name.clone(), is_folder: details.is_dir, size: details.size, modified: details.modified })
                } else {
                    None
                }
            },
            _ => None,
        };
        match shown {
            Some(entry) => {
                assert(listed(root@, found@[i as int]));
                assert(entry@ == entry_for(found@[i as int]));
                let ghost sorted = entries@.map_values(|entry: Entry| entry@);
                let lower = lowercase_chars(&entry.name);
                let mut j: usize = 0;
                assert(sorted.skip(0) == sorted);
                while j < entries.len() && !comes_before(&entry, &lower, &entries[j], &lowers[j])
                    invariant
                        j <= entries@.len(),
                        lowers@.len() == entries@.len(),
                        forall|k: int| 0 <= k < entries@.len() ==> (#[trigger] lowers@[k])@ == lowercased(entries@[k].name@),
                        lower@ == lowercased(entry.name@),
                        sorted == entries@.map_values(|entry: Entry| entry@),
                        place(sorted, entry@) == j + place(sorted.skip(j as int), entry@),
                    decreases entries@.len() - j,
                {
                    assert(sorted.skip(j as int)[0] == sorted[j as int]);
                    assert(sorted.skip(j as int).drop_first() == sorted.skip(j + 1));
                    j = j + 1;
                }
                if j < entries.len() {
                    assert(sorted.skip(j as int)[0] == sorted[j as int]);
                } else {
                    assert(sorted.skip(j as int).len() == 0);
                }
                proof {
                    lemma_place(sorted, entry@);
                }
                let ghost view = entry@;
                assert(place(sorted, view) == j);
                assert(kept(root@, found@.take(i + 1)) == kept(root@, found@.take(i as int)).push(view));
                assert(kept(root@, found@.take(i + 1)).drop_last() == kept(root@, found@.take(i as int)));
                assert(in_order(kept(root@, found@.take(i + 1))) == sorted.insert(j as int, view));
                entries.insert(j, entry);
                lowers.insert(j, lower);
                assert(entries@.map_values(|entry: Entry| entry@) == sorted.insert(j as int, view));
            },
            None => {
                assert(!listed(root@, found@[i as int]));
                assert(kept(root@, found@.take(i + 1)) == kept(root@, found@.take(i as int)));
            },
        }
        i = i + 1;
    }
    assert(found@.take(found@.len() as int) == found@);
    entries
}

} // verus!


verus! {

/// Whether a folder may be listed: it is a folder, and the server would
/// serve what its path leads to once links are followed (`resolved`).
pub fn may_be_listed(root: &str, is_dir: bool, resolved: Option<&str>) -> (may: bool)
    ensures
        may == (is_dir && crate::guard::served(root@, match resolved {
            Some(path) => Some(path@),
            None => None,
        })),
{
    is_dir && crate::guard::may_be_served(root, resolved)
}

/// Works in light and dark mode. The size and date columns stay narrow and
/// long names wrap, so the table fits on a phone.
pub const STYLE: &'static str = "
:root { color-scheme: light dark; }
body { max-width: 64rem; margin: 2rem auto; padding: 0 1rem; font: 15px/1.5 system-ui, sans-serif; }
h1 { margin: 0 0 1rem; font-size: 1.25rem; font-weight: 600; overflow-wrap: anywhere; }
table { width: 100%; border-collapse: collapse; }
th { text-align: left; font-weight: 500; opacity: .65; border-bottom: 1px solid rgba(127, 127, 127, .3); }
th, td { padding: .3rem .6rem; }
td:first-child { overflow-wrap: anywhere; }
th + th, td + td { width: 1%; white-space: nowrap; font-variant-numeric: tabular-nums; }
tbody tr:hover { background: rgba(127, 127, 127, .1); }
.size { text-align: right; }
.empty { opacity: .65; }
a { text-decoration: none; }
a:hover { text-decoration: underline; }
";

/// Shows each time in the reader's time zone. The page is written in UTC, and
/// a date the browser can't read keeps its UTC text.
pub const LOCAL_TIME: &'static str = r#"{
const two = (number) => String(number).padStart(2, "0");
for (const time of document.querySelectorAll("time")) {
  const at = new Date(time.dateTime);
  if (Number.isNaN(at.getTime())) continue;
  time.textContent = `${at.getFullYear()}-${two(at.getMonth() + 1)}-${two(at.getDate())} ${two(at.getHours())}:${two(at.getMinutes())}`;
}
}"#;

/// On a `?list` page, folder links keep `?list`, so browsing down doesn't
/// stop at a folder that has its own page.
pub open spec fn asking(asked: bool) -> Seq<char> {
    if asked {
        "?list"@
    } else {
        Seq::empty()
    }
}

/// The page up to the first row, titled with `title`.
pub open spec fn page_head(title: Seq<char>) -> Seq<char> {
    "<!doctype html>\n<html lang=\"en\">\n<head>\n<meta charset=\"utf-8\">\n<meta name=\"viewport\" content=\"width=device-width, initial-scale=1\">\n<title>Index of "@
        + title + "</title>\n<style>"@ + STYLE@ + "</style>\n</head>\n<body>\n<h1>Index of "@ + title
        + "</h1>\n<table>\n<thead><tr><th>Name</th><th class=\"size\">Size</th><th>Modified</th></tr></thead>\n<tbody>\n"@
}

/// The row that leads up a folder.
pub open spec fn up_row(asked: bool) -> Seq<char> {
    "<tr><td><a href=\"../"@ + asking(asked) + "\">../</a></td><td></td><td></td></tr>\n"@
}

/// The row that stands in for no entries.
pub open spec fn empty_row() -> Seq<char> {
    "<tr><td class=\"empty\" colspan=\"3\">This folder is empty</td></tr>\n"@
}

/// When an entry was written, as a `<time>` tag, or nothing where that is not
/// known.
pub open spec fn written_cell(entry: EntryView) -> Seq<char> {
    match entry.modified {
        Some(since) => crate::list::written_text(crate::list::second_of(since)),
        None => Seq::empty(),
    }
}

/// The row of one entry: its name, linked; its size where it is a file; and
/// when it was written.
pub open spec fn entry_row(entry: EntryView, asked: bool) -> Seq<char> {
    let name = crate::list::escaped(entry.name);
    let link = crate::percent::link_encoded(vstd::utf8::encode_utf8(entry.name));
    if entry.is_folder {
        "<tr><td><a href=\""@ + link + "/"@ + asking(asked) + "\">"@ + name
            + "/</a></td><td class=\"size\"></td><td>"@ + written_cell(entry) + "</td></tr>\n"@
    } else {
        "<tr><td><a href=\""@ + link + "\">"@ + name + "</a></td><td class=\"size\">"@
            + crate::list::readable(entry.size as nat) + "</td><td>"@ + written_cell(entry)
            + "</td></tr>\n"@
    }
}

/// The rows of the entries, in the order given.
pub open spec fn entry_rows(entries: Seq<EntryView>, asked: bool) -> Seq<char>
    decreases entries.len(),
{
    if entries.len() == 0 {
        Seq::empty()
    } else {
        entry_rows(entries.drop_last(), asked) + entry_row(entries.last(), asked)
    }
}

/// The page after the last row.
pub open spec fn page_tail() -> Seq<char> {
    "</tbody>\n</table>\n<script>"@ + LOCAL_TIME@ + "</script>\n</body>\n</html>\n"@
}

/// The list page of a folder: titled with the address as `shown`, a row up
/// unless the folder is the served one, a word where it is empty, then a row
/// for each entry.
pub open spec fn page_text(shown: Seq<char>, entries: Seq<EntryView>, at_top: bool, asked: bool) -> Seq<char> {
    page_head(crate::list::escaped(shown)) + (if at_top {
        Seq::empty()
    } else {
        up_row(asked)
    }) + (if entries.len() == 0 {
        empty_row()
    } else {
        Seq::empty()
    }) + entry_rows(entries, asked) + page_tail()
}

#[verifier::rlimit(50)]
fn push_folder_row(html: &mut String, link: &str, name: &str, written: &str, asked: bool)
    ensures
        final(html)@ == old(html)@ + ("<tr><td><a href=\""@ + link@ + "/"@ + asking(asked) + "\">"@ + name@
            + "/</a></td><td class=\"size\"></td><td>"@ + written@ + "</td></tr>\n"@),
{
    html.append("<tr><td><a href=\"");
    html.append(link);
    html.append("/");
    if asked {
        html.append("?list");
    }
    html.append("\">");
    html.append(name);
    html.append("/</a></td><td class=\"size\"></td><td>");
    html.append(written);
    html.append("</td></tr>\n");
    assert(final(html)@ =~= old(html)@ + ("<tr><td><a href=\""@ + link@ + "/"@ + asking(asked) + "\">"@
        + name@ + "/</a></td><td class=\"size\"></td><td>"@ + written@ + "</td></tr>\n"@));
}

#[verifier::rlimit(50)]
fn push_file_row(html: &mut String, link: &str, name: &str, size: &str, written: &str)
    ensures
        final(html)@ == old(html)@ + ("<tr><td><a href=\""@ + link@ + "\">"@ + name@ + "</a></td><td class=\"size\">"@
            + size@ + "</td><td>"@ + written@ + "</td></tr>\n"@),
{
    html.append("<tr><td><a href=\"");
    html.append(link);
    html.append("\">");
    html.append(name);
    html.append("</a></td><td class=\"size\">");
    html.append(size);
    html.append("</td><td>");
    html.append(written);
    html.append("</td></tr>\n");
    assert(final(html)@ =~= old(html)@ + ("<tr><td><a href=\""@ + link@ + "\">"@ + name@
        + "</a></td><td class=\"size\">"@ + size@ + "</td><td>"@ + written@ + "</td></tr>\n"@));
}

fn push_entry_row(html: &mut String, entry: &Entry, asked: bool)
    ensures
        final(html)@ == old(html)@ + entry_row(entry@, asked),
{
    let name = crate::list::escape(entry.name.as_str());
    let link = crate::percent::in_a_link(entry.name.as_str());
    let written = match entry.modified {
        Some(since) => crate::list::written_at(since),
        None => String::new(),
    };
    assert(written@ == written_cell(entry@));
    if entry.is_folder {
        push_folder_row(html, link.as_str(), name.as_str(), written.as_str(), asked);
    } else {
        let size = crate::list::readable_size(entry.size);
        push_file_row(html, link.as_str(), name.as_str(), size.as_str(), written.as_str());
    }
}

#[verifier::rlimit(50)]
fn head(title: &str) -> (html: String)
    ensures
        html@ == page_head(title@),
{
    let mut html = String::new();
    html.append("<!doctype html>\n<html lang=\"en\">\n<head>\n<meta charset=\"utf-8\">\n<meta name=\"viewport\" content=\"width=device-width, initial-scale=1\">\n<title>Index of ");
    html.append(title);
    html.append("</title>\n<style>");
    html.append(STYLE);
    html.append("</style>\n</head>\n<body>\n<h1>Index of ");
    html.append(title);
    html.append("</h1>\n<table>\n<thead><tr><th>Name</th><th class=\"size\">Size</th><th>Modified</th></tr></thead>\n<tbody>\n");
    assert(html@ =~= page_head(title@));
    html
}

fn push_up_row(html: &mut String, asked: bool)
    ensures
        final(html)@ == old(html)@ + up_row(asked),
{
    html.append("<tr><td><a href=\"../");
    if asked {
        html.append("?list");
    }
    html.append("\">../</a></td><td></td><td></td></tr>\n");
    assert(final(html)@ =~= old(html)@ + up_row(asked));
}

fn push_tail(html: &mut String)
    ensures
        final(html)@ == old(html)@ + page_tail(),
{
    html.append("</tbody>\n</table>\n<script>");
    html.append(LOCAL_TIME);
    html.append("</script>\n</body>\n</html>\n");
    assert(final(html)@ =~= old(html)@ + page_tail());
}

/// Builds the list page. Links are relative, so they still work when the site
/// is served under a longer path.
#[verifier::rlimit(50)]
pub fn page(shown: &str, entries: &Vec<Entry>, at_top: bool, asked: bool) -> (html: String)
    ensures
        html@ == page_text(shown@, entries@.map_values(|entry: Entry| entry@), at_top, asked),
{
    let title = crate::list::escape(shown);
    let mut html = head(title.as_str());
    let ghost up = if at_top {
        Seq::empty()
    } else {
        up_row(asked)
    };
    let ghost empty = if entries@.len() == 0 {
        empty_row()
    } else {
        Seq::empty()
    };
    if !at_top {
        push_up_row(&mut html, asked);
    }
    assert(html@ == page_head(crate::list::escaped(shown@)) + up);
    if entries.len() == 0 {
        html.append("<tr><td class=\"empty\" colspan=\"3\">This folder is empty</td></tr>\n");
    }
    let ghost views = entries@.map_values(|entry: Entry| entry@);
    let ghost start = html@;
    assert(start == page_head(crate::list::escaped(shown@)) + up + empty);
    let mut i: usize = 0;
    assert(entry_rows(views.take(0), asked) == Seq::<char>::empty());
    assert(start + Seq::<char>::empty() == start);
    while i < entries.len()
        invariant
            i <= entries@.len(),
            views == entries@.map_values(|entry: Entry| entry@),
            html@ == start + entry_rows(views.take(i as int), asked),
        decreases entries@.len() - i,
    {
        assert(views.take(i + 1).drop_last() == views.take(i as int));
        assert(views.take(i + 1).last() == entries@[i as int]@);
        push_entry_row(&mut html, &entries[i], asked);
        assert(html@ == start + entry_rows(views.take(i + 1), asked));
        i = i + 1;
    }
    assert(views.take(entries@.len() as int) == views);
    push_tail(&mut html);
    html
}

} // verus!

verus! {

/// The exact query that asks for a list. Anything else, like
/// `?list=groceries`, is left to the page.
pub const ASKS_FOR_THE_LIST: &'static str = "list";

/// How a request meets the file lists.
#[derive(Clone, Copy, Debug, PartialEq, Eq, Structural)]
pub enum ListWay {
    /// Not a read of an address ending in `/`: the list has nothing to do
    /// with it.
    PassOn,
    /// `?list` asked for the list: show it, or pass on where there is none.
    ListFirst,
    /// The folder's own page comes first; the list answers only a 404.
    PageFirst,
}

pub open spec fn asks_for_the_list(query: Option<Seq<char>>) -> bool {
    query == Some(ASKS_FOR_THE_LIST@)
}

/// Which way a request goes: only reads (`GET` or `HEAD`) of an address
/// ending in `/` get a list. The file service first redirects `/docs` to
/// `/docs/`, which keeps the relative links working.
pub fn list_way(reads: bool, path: &str, query: Option<&str>) -> (way: ListWay)
    ensures
        way == if !reads || !crate::serve::ends_in_a_slash(path@) {
            ListWay::PassOn
        } else if asks_for_the_list(match query {
            Some(q) => Some(q@),
            None => None,
        }) {
            ListWay::ListFirst
        } else {
            ListWay::PageFirst
        },
{
    let chars = chars_of(path);
    if !reads || chars.len() == 0 || chars[chars.len() - 1] != '/' {
        return ListWay::PassOn;
    }
    let asked = match query {
        Some(q) => text::same_chars(&chars_of(q), &chars_of(ASKS_FOR_THE_LIST)),
        None => false,
    };
    if asked {
        ListWay::ListFirst
    } else {
        ListWay::PageFirst
    }
}

/// What the list of the folder at `address` is, once the folder has been
/// looked at: nothing where it has an index.html (even a broken one, which
/// the list would hide) and the list was not asked for, or where it could not
/// be read (`entries` is `None`); otherwise its page, titled with the address
/// decoded, with a row up unless `folder` is the served one.
pub fn list_page(
    root: &str,
    address: &str,
    folder: &str,
    asked: bool,
    has_a_page: bool,
    entries: Option<&Vec<Entry>>,
) -> (html: Option<String>)
    ensures
        html is Some <==> !(has_a_page && !asked) && entries is Some,
        html matches Some(h) ==> h@ == page_text(
            crate::percent::decoded_lossily(address@),
            entries->0@.map_values(|entry: Entry| entry@),
            folder@ == root@,
            asked,
        ),
{
    if has_a_page && !asked {
        return None;
    }
    match entries {
        None => None,
        Some(entries) => {
            let shown = crate::percent::decode(address);
            let at_top = text::same_chars(&chars_of(folder), &chars_of(root));
            Some(page(shown.as_str(), entries, at_top, asked))
        },
    }
}

} // verus!
