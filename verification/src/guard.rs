//! What the server refuses to hand out: anything outside the served
//! directory, and anything hidden.

use crate::percent::{self, decode};
use crate::text::{self, chars_of, same_chars, split_chars, text_of};
use vstd::prelude::*;

verus! {

/// True for a name the server will not serve: anything hidden, apart from
/// `.well-known`, the one hidden directory the web uses.
pub open spec fn hidden(name: Seq<char>) -> bool {
    name.len() > 0 && name[0] == '.' && name != ".well-known"@
}

pub(crate) fn is_hidden_chars(name: &Vec<char>) -> (hidden_name: bool)
    ensures
        hidden_name == hidden(name@),
{
    if name.len() == 0 || name[0] != '.' {
        return false;
    }
    let well_known = chars_of(".well-known");
    !same_chars(name, &well_known)
}

/// True for a name the server will not serve: anything hidden, apart from
/// the one directory the web uses.
pub fn is_hidden(name: &str) -> (hidden_name: bool)
    ensures
        hidden_name == hidden(name@),
{
    let chars = chars_of(name);
    is_hidden_chars(&chars)
}

/// Whether some piece of `text` between slashes is hidden.
pub open spec fn has_hidden_piece(text: Seq<char>) -> bool {
    exists|k: int| 0 <= k < text::split(text, '/').len() && hidden(#[trigger] text::split(text, '/')[k])
}

/// True for an address, already decoded, with a hidden name between its
/// slashes.
pub fn names_a_hidden_name(decoded: &str) -> (named: bool)
    ensures
        named == has_hidden_piece(decoded@),
{
    let chars = chars_of(decoded);
    let pieces = split_chars(&chars, '/');
    let mut k: usize = 0;
    while k < pieces.len()
        invariant
            k <= pieces@.len(),
            chars@ == decoded@,
            pieces@.len() == text::split(chars@, '/').len(),
            forall|j: int| 0 <= j < pieces@.len() ==> #[trigger] pieces@[j]@ == text::split(chars@, '/')[j],
            forall|j: int| 0 <= j < k ==> !hidden(#[trigger] text::split(chars@, '/')[j]),
        decreases pieces@.len() - k,
    {
        if is_hidden_chars(&pieces[k]) {
            assert(hidden(text::split(chars@, '/')[k as int]));
            return true;
        }
        k = k + 1;
    }
    false
}

/// True for an address naming a hidden file. The address is decoded first,
/// as the file service decodes it: `%2e` is a dot and `%2f` a separator, so
/// a check on the raw text would miss `/sub%2f.env`.
pub fn names_a_hidden_file(path: &str) -> (named: bool)
    ensures
        named == has_hidden_piece(percent::decoded_lossily(path@)),
{
    let decoded = decode(path);
    names_a_hidden_name(decoded.as_str())
}

/// `text` without the `c` it starts with, however many.
pub open spec fn without_leading(text: Seq<char>, c: char) -> Seq<char>
    decreases text.len(),
{
    if text.len() > 0 && text[0] == c {
        without_leading(text.skip(1), c)
    } else {
        text
    }
}

/// `path` added to `base` as `PathBuf::push` adds it: a path from the root
/// replaces the base, and otherwise a separator goes between them unless the
/// base is empty or ends in one.
pub open spec fn joined(base: Seq<char>, path: Seq<char>) -> Seq<char> {
    if path.len() > 0 && path[0] == '/' {
        path
    } else if base.len() == 0 || base.last() == '/' {
        base + path
    } else {
        base.push('/') + path
    }
}

pub fn join(base: &str, path: &str) -> (full: String)
    ensures
        full@ == joined(base@, path@),
{
    let base_chars = chars_of(base);
    let path_chars = chars_of(path);
    if path_chars.len() > 0 && path_chars[0] == '/' {
        return text_of(&path_chars);
    }
    let mut full = text_of(&base_chars);
    if base_chars.len() > 0 && base_chars[base_chars.len() - 1] != '/' {
        text::push_char(&mut full, '/');
    }
    full.append(path);
    full
}

/// `text` with the `c` it starts with taken off.
pub fn trim_leading(text: &str, c: char) -> (trimmed: String)
    ensures
        trimmed@ == without_leading(text@, c),
{
    let chars = chars_of(text);
    let mut start: usize = 0;
    assert(chars@.skip(0) == chars@);
    while start < chars.len() && chars[start] == c
        invariant
            start <= chars.len(),
            without_leading(chars@.skip(start as int), c) == without_leading(chars@, c),
        decreases chars.len() - start,
    {
        assert(chars@.skip(start as int).skip(1) == chars@.skip(start + 1));
        start = start + 1;
    }
    let mut rest: Vec<char> = Vec::new();
    let mut i = start;
    while i < chars.len()
        invariant
            start <= i <= chars.len(),
            rest@ == chars@.subrange(start as int, i as int),
        decreases chars.len() - i,
    {
        rest.push(chars[i]);
        i = i + 1;
    }
    assert(rest@ == chars@.skip(start as int));
    text_of(&rest)
}

/// The path on disk for an address, before following any links: the served
/// directory with the decoded address below it.
pub fn on_disk(root: &str, path: &str) -> (full: String)
    ensures
        full@ == joined(root@, without_leading(percent::decoded_lossily(path@), '/')),
{
    let decoded = decode(path);
    let below = trim_leading(decoded.as_str(), '/');
    join(root, below.as_str())
}

proof fn lemma_without_leading(text: Seq<char>, c: char)
    ensures
        without_leading(text, c).len() > 0 ==> without_leading(text, c)[0] != c,
    decreases text.len(),
{
    if text.len() > 0 && text[0] == c {
        lemma_without_leading(text.skip(1), c);
    }
}

/// An address is looked for below the served directory: whatever it says,
/// the path on disk starts with the served directory's own.
pub proof fn law_an_address_is_looked_for_below_the_served_directory(root: Seq<char>, path: Seq<char>)
    ensures ({
        let full = joined(root, without_leading(percent::decoded_lossily(path), '/'));
        root.len() <= full.len() && full.take(root.len() as int) == root
    }),
{
    let below = without_leading(percent::decoded_lossily(path), '/');
    lemma_without_leading(percent::decoded_lossily(path), '/');
    let full = joined(root, below);
    if root.len() == 0 || root.last() == '/' {
        assert(full == root + below);
    } else {
        assert(full == root.push('/') + below);
    }
    assert(full.take(root.len() as int) == root);
}

/// For an address ending in `/` the file service serves the folder's
/// index.html, which the check on the address itself never saw: the path on
/// disk of that page, to be checked just before it is opened. Nothing for any
/// other address; only the page is refused, so `?list` still works.
pub fn index_page_on_disk(root: &str, path: &str) -> (page: Option<String>)
    ensures
        page is Some <==> (path@.len() > 0 && path@.last() == '/'),
        page matches Some(p) ==> p@ == joined(
            joined(root@, without_leading(percent::decoded_lossily(path@), '/')),
            crate::serve::INDEX_FILE@,
        ),
{
    let chars = chars_of(path);
    if chars.len() == 0 || chars[chars.len() - 1] != '/' {
        return None;
    }
    let folder = on_disk(root, path);
    Some(join(folder.as_str(), crate::serve::INDEX_FILE))
}

/// The names a path goes through, as `Path::components` reads them from a
/// path made of `pieces` between slashes: empty pieces and `.` say nothing.
pub open spec fn named(pieces: Seq<Seq<char>>) -> Seq<Seq<char>>
    decreases pieces.len(),
{
    if pieces.len() == 0 {
        Seq::empty()
    } else {
        let before = named(pieces.drop_last());
        let last = pieces.last();
        if last.len() == 0 || last == "."@ {
            before
        } else {
            before.push(last)
        }
    }
}

pub open spec fn components(path: Seq<char>) -> Seq<Seq<char>> {
    named(text::split(path, '/'))
}

pub open spec fn from_the_root(path: Seq<char>) -> bool {
    path.len() > 0 && path[0] == '/'
}

/// Whether a path the links were followed to may be served from `root`: it
/// must lie inside it, with nothing hidden on the way down from it. A path
/// that led nowhere (`None`) is allowed, so the file service can answer 404.
pub open spec fn served(root: Seq<char>, resolved: Option<Seq<char>>) -> bool {
    match resolved {
        None => true,
        Some(path) => {
            let above = components(root);
            let all = components(path);
            &&& from_the_root(root) == from_the_root(path)
            &&& above.len() <= all.len()
            &&& all.take(above.len() as int) == above
            &&& forall|i: int|
                above.len() <= i < all.len() ==> !(#[trigger] all[i] != ".."@ && hidden(all[i]))
        },
    }
}

/// The names a path is made of, between its slashes, without the empty
/// ones and the single dots.
pub fn component_list(path: &Vec<char>) -> (names: Vec<Vec<char>>)
    ensures
        names@.len() == components(path@).len(),
        forall|k: int| 0 <= k < names@.len() ==> #[trigger] names@[k]@ == components(path@)[k],
{
    let pieces = split_chars(path, '/');
    let ghost all = text::split(path@, '/');
    let dot = chars_of(".");
    proof {
        reveal_strlit(".");
    }
    let mut names: Vec<Vec<char>> = Vec::new();
    let mut k: usize = 0;
    while k < pieces.len()
        invariant
            k <= pieces@.len(),
            pieces@.len() == all.len(),
            all == text::split(path@, '/'),
            dot@ == "."@,
            forall|j: int| 0 <= j < pieces@.len() ==> #[trigger] pieces@[j]@ == all[j],
            names@.len() == named(all.take(k as int)).len(),
            forall|j: int| 0 <= j < names@.len() ==> #[trigger] names@[j]@ == named(all.take(k as int))[j],
        decreases pieces@.len() - k,
    {
        assert(all.take(k + 1).drop_last() == all.take(k as int));
        assert(all.take(k + 1).last() == all[k as int]);
        let piece = &pieces[k];
        if piece.len() != 0 && !same_chars(piece, &dot) {
            names.push(piece.clone());
        }
        k = k + 1;
    }
    assert(all.take(pieces@.len() as int) == all);
    names
}

/// Whether the server may serve what a path leads to, given where it led once
/// its links were followed (`None` where it leads nowhere). It must be inside
/// the served folder, with nothing hidden on the way. A path that doesn't
/// exist is allowed, so the file service can answer 404.
pub fn may_be_served(root: &str, resolved: Option<&str>) -> (may: bool)
    ensures
        may == served(root@, match resolved {
            Some(path) => Some(path@),
            None => None,
        }),
{
    match resolved {
        None => true,
        Some(path) => lies_inside(root, path),
    }
}

#[verifier::rlimit(50)]
fn lies_inside(root: &str, path: &str) -> (inside: bool)
    ensures
        inside == served(root@, Some(path@)),
{
    let root_chars = chars_of(root);
    let path_chars = chars_of(path);
    let root_absolute = root_chars.len() > 0 && root_chars[0] == '/';
    let path_absolute = path_chars.len() > 0 && path_chars[0] == '/';
    if root_absolute != path_absolute {
        return false;
    }
    let above = component_list(&root_chars);
    let all = component_list(&path_chars);
    if above.len() > all.len() {
        return false;
    }
    let mut i: usize = 0;
    while i < above.len()
        invariant
            i <= above@.len() <= all@.len(),
            above@.len() == components(root@).len(),
            all@.len() == components(path@).len(),
            forall|k: int| 0 <= k < above@.len() ==> #[trigger] above@[k]@ == components(root@)[k],
            forall|k: int| 0 <= k < all@.len() ==> #[trigger] all@[k]@ == components(path@)[k],
            forall|k: int| 0 <= k < i ==> components(path@)[k] == components(root@)[k],
        decreases above@.len() - i,
    {
        if !same_chars(&all[i], &above[i]) {
            assert(components(path@).take(above@.len() as int)[i as int] != components(root@)[i as int]);
            assert(components(path@).take(above@.len() as int) != components(root@));
            return false;
        }
        i = i + 1;
    }
    assert(components(path@).take(above@.len() as int) =~= components(root@));
    let dots = chars_of("..");
    proof {
        reveal_strlit("..");
    }
    let mut j: usize = above.len();
    while j < all.len()
        invariant
            above@.len() <= j <= all@.len(),
            above@.len() == components(root@).len(),
            all@.len() == components(path@).len(),
            forall|k: int| 0 <= k < all@.len() ==> #[trigger] all@[k]@ == components(path@)[k],
            dots@ == ".."@,
            forall|k: int|
                above@.len() <= k < j ==> !(#[trigger] components(path@)[k] != ".."@ && hidden(
                    components(path@)[k],
                )),
        decreases all@.len() - j,
    {
        if !same_chars(&all[j], &dots) && is_hidden_chars(&all[j]) {
            assert(components(path@)[j as int] != ".."@ && hidden(components(path@)[j as int]));
            return false;
        }
        j = j + 1;
    }
    true
}

} // verus!
