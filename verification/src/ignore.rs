//! Which changes below the served directory do not refresh the browser:
//! hidden names, build output and dependencies, editors' scratch files, and
//! the glob patterns given with `--ignore` or in the ignore file.

use crate::guard::{component_list, components, hidden};
use crate::listing::{lowercase, lowercased};
use crate::banner::IGNORE_FILE;
use crate::text::{self, chars_of, push_decimal, same_chars, split_chars, text_of};
use vstd::prelude::*;

verus! {

// ---------------------------------------------------------------------------
// Globs on one name

/// The index of the first `]` in `p` from `k` on, or -1 where there is none.
pub open spec fn close_of(p: Seq<char>, k: int) -> int
    decreases p.len() - k,
{
    if k < 0 || k >= p.len() {
        -1
    } else if p[k] == ']' {
        k
    } else {
        close_of(p, k + 1)
    }
}

/// Whether the class opened by the `[` at `i` is negated: `[!..]` or `[^..]`.
pub open spec fn negated(p: Seq<char>, i: int) -> bool {
    0 <= i + 1 < p.len() && (p[i + 1] == '!' || p[i + 1] == '^')
}

/// Where the items of the class opened at `i` begin.
pub open spec fn items_start(p: Seq<char>, i: int) -> int {
    if negated(p, i) {
        i + 2
    } else {
        i + 1
    }
}

/// Whether `c` is among the items of a class, `p[from..to]`: single
/// characters, and ranges written `a-z`.
pub open spec fn in_items(p: Seq<char>, from: int, to: int, c: char) -> bool
    decreases to - from,
{
    if from >= to {
        false
    } else if from + 2 < to && p[from + 1] == '-' {
        (p[from] as u32 <= c as u32 && c as u32 <= p[from + 2] as u32) || in_items(p, from + 3, to, c)
    } else {
        p[from] == c || in_items(p, from + 1, to, c)
    }
}

pub proof fn lemma_close_of(p: Seq<char>, k: int)
    ensures
        close_of(p, k) == -1 || (0 <= k <= close_of(p, k) < p.len() && p[close_of(p, k)] == ']'),
    decreases p.len() - k,
{
    if 0 <= k < p.len() && p[k] != ']' {
        lemma_close_of(p, k + 1);
    }
}

/// Whether the name `n`, from `j` on, matches the glob `p` from `i` on: `*`
/// stands for any run of characters, `?` for any one, `[..]` for one of a
/// class, and any other character for itself.
pub open spec fn glob_at(p: Seq<char>, i: int, n: Seq<char>, j: int) -> bool
    decreases p.len() - i, n.len() - j,
{
    if i < 0 || i >= p.len() {
        j >= n.len()
    } else if p[i] == '*' {
        glob_at(p, i + 1, n, j) || (j < n.len() && glob_at(p, i, n, j + 1))
    } else if j >= n.len() {
        false
    } else if p[i] == '?' {
        glob_at(p, i + 1, n, j + 1)
    } else if p[i] == '[' {
        let start = items_start(p, i);
        let close = close_of(p, start);
        proof {
            lemma_close_of(p, start);
        }
        close >= 0 && in_items(p, start, close, n[j]) != negated(p, i) && glob_at(p, close + 1, n, j + 1)
    } else {
        p[i] == n[j] && glob_at(p, i + 1, n, j + 1)
    }
}

/// Whether the whole name `n` matches the glob `p`.
pub open spec fn glob(p: Seq<char>, n: Seq<char>) -> bool {
    glob_at(p, 0, n, 0)
}

/// Whether every class in `p`, from `i` on, is closed by a `]`.
pub open spec fn classes_closed(p: Seq<char>, i: int) -> bool
    decreases p.len() - i,
{
    if i < 0 || i >= p.len() {
        true
    } else if p[i] == '[' {
        let close = close_of(p, items_start(p, i));
        proof {
            lemma_close_of(p, items_start(p, i));
        }
        close >= 0 && classes_closed(p, close + 1)
    } else {
        classes_closed(p, i + 1)
    }
}

fn close_index(p: &Vec<char>, k: usize) -> (close: Option<usize>)
    requires
        k <= p@.len(),
    ensures
        match close {
            Some(c) => c as int == close_of(p@, k as int),
            None => close_of(p@, k as int) == -1,
        },
{
    let mut idx = k;
    while idx < p.len() && p[idx] != ']'
        invariant
            k <= idx <= p@.len(),
            close_of(p@, k as int) == close_of(p@, idx as int),
        decreases p@.len() - idx,
    {
        idx = idx + 1;
    }
    if idx < p.len() {
        Some(idx)
    } else {
        None
    }
}

fn in_items_of(p: &Vec<char>, from: usize, to: usize, c: char) -> (found: bool)
    requires
        to <= p@.len(),
    ensures
        found == in_items(p@, from as int, to as int, c),
    decreases to - from,
{
    if from >= to {
        false
    } else if to - from > 2 && p[from + 1] == '-' {
        ((p[from] as u32) <= (c as u32) && (c as u32) <= (p[from + 2] as u32)) || in_items_of(p, from + 3, to, c)
    } else {
        p[from] == c || in_items_of(p, from + 1, to, c)
    }
}

fn glob_from(p: &Vec<char>, i: usize, n: &Vec<char>, j: usize) -> (matched: bool)
    requires
        i <= p@.len(),
        j <= n@.len(),
    ensures
        matched == glob_at(p@, i as int, n@, j as int),
    decreases p@.len() - i, n@.len() - j,
{
    if i >= p.len() {
        return j >= n.len();
    }
    let c = p[i];
    if c == '*' {
        if glob_from(p, i + 1, n, j) {
            return true;
        }
        return j < n.len() && glob_from(p, i, n, j + 1);
    }
    if j >= n.len() {
        return false;
    }
    if c == '?' {
        return glob_from(p, i + 1, n, j + 1);
    }
    if c == '[' {
        let negates = i + 1 < p.len() && (p[i + 1] == '!' || p[i + 1] == '^');
        let start = if negates {
            i + 2
        } else {
            i + 1
        };
        proof {
            lemma_close_of(p@, start as int);
        }
        return match close_index(p, start) {
            None => false,
            Some(close) => (in_items_of(p, start, close, n[j]) != negates) && glob_from(p, close + 1, n, j + 1),
        };
    }
    c == n[j] && glob_from(p, i + 1, n, j + 1)
}

/// Whether the name `name` matches the glob `pattern`.
pub fn glob_matches(pattern: &Vec<char>, name: &Vec<char>) -> (matched: bool)
    ensures
        matched == glob(pattern@, name@),
{
    glob_from(pattern, 0, name, 0)
}

fn classes_closed_from(p: &Vec<char>, i: usize) -> (closed: bool)
    requires
        i <= p@.len(),
    ensures
        closed == classes_closed(p@, i as int),
    decreases p@.len() - i,
{
    if i >= p.len() {
        return true;
    }
    if p[i] == '[' {
        let negates = i + 1 < p.len() && (p[i + 1] == '!' || p[i + 1] == '^');
        let start = if negates {
            i + 2
        } else {
            i + 1
        };
        proof {
            lemma_close_of(p@, start as int);
        }
        return match close_index(p, start) {
            None => false,
            Some(close) => classes_closed_from(p, close + 1),
        };
    }
    classes_closed_from(p, i + 1)
}

// ---------------------------------------------------------------------------
// Patterns

/// Why a pattern is refused.
#[derive(Clone, Copy, Debug, PartialEq, Eq, Structural)]
pub enum Refusal {
    /// Nothing is left of it but slashes.
    NamesNothing,
    /// A `[` opens a class that no `]` closes.
    UnclosedClass,
}

/// A pattern ready to be matched: the globs between its slashes, and
/// whether it is anchored at the served directory.
pub struct IgnorePattern {
    anchored: bool,
    pieces: Vec<Vec<char>>,
}

pub struct PatternView {
    pub anchored: bool,
    pub pieces: Seq<Seq<char>>,
}

/// The texts of some runs of characters.
pub open spec fn views(v: Seq<Vec<char>>) -> Seq<Seq<char>> {
    v.map_values(|x: Vec<char>| x@)
}

impl View for IgnorePattern {
    type V = PatternView;

    closed spec fn view(&self) -> PatternView {
        PatternView { anchored: self.anchored, pieces: views(self.pieces@) }
    }
}

/// The views of some patterns.
pub open spec fn pattern_views(patterns: Seq<IgnorePattern>) -> Seq<PatternView> {
    patterns.map_values(|p: IgnorePattern| p@)
}

/// `pieces` without the empty ones.
pub open spec fn nonempty(pieces: Seq<Seq<char>>) -> Seq<Seq<char>>
    decreases pieces.len(),
{
    if pieces.len() == 0 {
        Seq::empty()
    } else if pieces.last().len() == 0 {
        nonempty(pieces.drop_last())
    } else {
        nonempty(pieces.drop_last()).push(pieces.last())
    }
}

/// What a pattern's text stands for. The pieces are what lies between its
/// slashes, empty ones left out. A pattern is anchored at the served
/// directory when it starts with `/` or has more than one piece; otherwise
/// it matches a name at any depth. It is refused when nothing is left of it,
/// or when a `[` in a piece is not closed.
pub open spec fn pattern_of(text: Seq<char>) -> Result<PatternView, Refusal> {
    let pieces = nonempty(text::split(text, '/'));
    if pieces.len() == 0 {
        Err(Refusal::NamesNothing)
    } else if exists|k: int| 0 <= k < pieces.len() && !classes_closed(#[trigger] pieces[k], 0) {
        Err(Refusal::UnclosedClass)
    } else {
        Ok(PatternView { anchored: (text.len() > 0 && text[0] == '/') || pieces.len() > 1, pieces })
    }
}

/// The text a pattern is matched as: lowercased where letter case is set aside.
pub open spec fn folded(text: Seq<char>, fold_case: bool) -> Seq<char> {
    if fold_case {
        lowercased(text)
    } else {
        text
    }
}

fn folded_chars(text: &str, fold_case: bool) -> (chars: Vec<char>)
    ensures
        chars@ == folded(text@, fold_case),
{
    if fold_case {
        let lower = lowercase(text);
        chars_of(lower.as_str())
    } else {
        chars_of(text)
    }
}

fn nonempty_pieces(pieces: &Vec<Vec<char>>) -> (kept: Vec<Vec<char>>)
    ensures
        views(kept@) == nonempty(views(pieces@)),
{
    let ghost all = views(pieces@);
    let mut kept: Vec<Vec<char>> = Vec::new();
    let mut k: usize = 0;
    while k < pieces.len()
        invariant
            k <= pieces@.len(),
            all == views(pieces@),
            views(kept@) == nonempty(all.take(k as int)),
        decreases pieces@.len() - k,
    {
        assert(all.take(k + 1).drop_last() == all.take(k as int));
        assert(all.take(k + 1).last() == pieces@[k as int]@);
        if pieces[k].len() > 0 {
            let ghost before = kept@;
            kept.push(pieces[k].clone());
            assert(views(kept@) == views(before).push(pieces@[k as int]@));
        }
        k = k + 1;
    }
    assert(all.take(pieces@.len() as int) == all);
    kept
}

/// Reads a pattern, lowercased first where `fold_case` is set.
pub fn pattern_from(text: &str, fold_case: bool) -> (pattern: Result<IgnorePattern, Refusal>)
    ensures
        match pattern {
            Ok(p) => pattern_of(folded(text@, fold_case)) == Ok::<PatternView, Refusal>(p@),
            Err(why) => pattern_of(folded(text@, fold_case)) == Err::<PatternView, Refusal>(why),
        },
{
    let chars = folded_chars(text, fold_case);
    let split = split_chars(&chars, '/');
    assert(views(split@) == text::split(chars@, '/'));
    let pieces = nonempty_pieces(&split);
    let ghost spec_pieces = nonempty(text::split(chars@, '/'));
    if pieces.len() == 0 {
        return Err(Refusal::NamesNothing);
    }
    let mut k: usize = 0;
    while k < pieces.len()
        invariant
            k <= pieces@.len(),
            views(pieces@) == spec_pieces,
            spec_pieces == nonempty(text::split(chars@, '/')),
            chars@ == folded(text@, fold_case),
            forall|m: int| 0 <= m < k ==> classes_closed(#[trigger] spec_pieces[m], 0),
        decreases pieces@.len() - k,
    {
        assert(spec_pieces[k as int] == pieces@[k as int]@);
        if !classes_closed_from(&pieces[k], 0) {
            assert(!classes_closed(spec_pieces[k as int], 0));
            return Err(Refusal::UnclosedClass);
        }
        k = k + 1;
    }
    let anchored = (chars.len() > 0 && chars[0] == '/') || pieces.len() > 1;
    let pattern = IgnorePattern { anchored, pieces };
    assert(pattern@ == PatternView { anchored, pieces: spec_pieces });
    Ok(pattern)
}

// ---------------------------------------------------------------------------
// Paths

/// The piece `**`, which stands for any number of folders.
pub open spec fn any_depth(piece: Seq<char>) -> bool {
    piece.len() == 2 && piece[0] == '*' && piece[1] == '*'
}

/// Whether the names `parts`, from `j` on, match the pieces from `i` on: each
/// piece matches one name as a glob, and `**` any number of names.
pub open spec fn path_at(pieces: Seq<Seq<char>>, i: int, parts: Seq<Seq<char>>, j: int) -> bool
    decreases pieces.len() - i, parts.len() - j,
{
    if i < 0 || i >= pieces.len() {
        j >= parts.len()
    } else if any_depth(pieces[i]) {
        path_at(pieces, i + 1, parts, j) || (0 <= j < parts.len() && path_at(pieces, i, parts, j + 1))
    } else {
        0 <= j < parts.len() && glob(pieces[i], parts[j]) && path_at(pieces, i + 1, parts, j + 1)
    }
}

/// Whether a pattern matches the path made of the names `parts`: an anchored
/// one the whole path from the served directory, any other the last name.
pub open spec fn hits(pattern: PatternView, parts: Seq<Seq<char>>) -> bool {
    if pattern.anchored {
        path_at(pattern.pieces, 0, parts, 0)
    } else {
        parts.len() > 0 && pattern.pieces.len() > 0 && glob(pattern.pieces[0], parts.last())
    }
}

/// Names whose changes never refresh: hidden ones, build output,
/// dependencies, and editors' backups, swap files and autosaves.
pub open spec fn default_ignored(name: Seq<char>) -> bool {
    ||| hidden(name)
    ||| name == "target"@
    ||| name == "node_modules"@
    ||| (name.len() > 0 && name.last() == '~')
    ||| (name.len() >= 4 && name[name.len() - 4] == '.' && name[name.len() - 3] == 's'
        && name[name.len() - 2] == 'w' && name[name.len() - 1] == 'p')
    ||| (name.len() >= 2 && name[0] == '#' && name.last() == '#')
}

/// Whether the `m`-th name of a path makes a change there one to ignore: the
/// name itself is one of those never watched, or a pattern matches the path
/// up to it.
pub open spec fn ignored_at(patterns: Seq<PatternView>, parts: Seq<Seq<char>>, m: int) -> bool {
    ||| default_ignored(parts[m])
    ||| exists|q: int| 0 <= q < patterns.len() && #[trigger] hits(patterns[q], parts.take(m + 1))
}

/// Whether a change at the path made of `parts` is ignored: some folder on
/// the way, or the last name, is.
pub open spec fn ignored_parts(patterns: Seq<PatternView>, parts: Seq<Seq<char>>) -> bool {
    exists|m: int| 0 <= m < parts.len() && #[trigger] ignored_at(patterns, parts, m)
}

/// Whether a change at `relative`, a path below the served directory with
/// `/` between its names, is one not to refresh for; with `fold_case`, the
/// path is lowercased first, as the patterns were.
pub open spec fn ignored_path(patterns: Seq<PatternView>, relative: Seq<char>, fold_case: bool) -> bool {
    ignored_parts(patterns, components(folded(relative, fold_case)))
}

fn is_any_depth(piece: &Vec<char>) -> (any: bool)
    ensures
        any == any_depth(piece@),
{
    piece.len() == 2 && piece[0] == '*' && piece[1] == '*'
}

fn path_from(pieces: &Vec<Vec<char>>, i: usize, parts: &Vec<Vec<char>>, end: usize, j: usize) -> (matched: bool)
    requires
        i <= pieces@.len(),
        j <= end,
        end <= parts@.len(),
    ensures
        matched == path_at(views(pieces@), i as int, views(parts@).take(end as int), j as int),
    decreases pieces@.len() - i, end - j,
{
    let ghost ps = views(pieces@);
    let ghost qs = views(parts@).take(end as int);
    if i >= pieces.len() {
        return j >= end;
    }
    assert(ps[i as int] == pieces@[i as int]@);
    if is_any_depth(&pieces[i]) {
        if path_from(pieces, i + 1, parts, end, j) {
            return true;
        }
        return j < end && path_from(pieces, i, parts, end, j + 1);
    }
    if j >= end {
        return false;
    }
    assert(qs[j as int] == parts@[j as int]@);
    glob_matches(&pieces[i], &parts[j]) && path_from(pieces, i + 1, parts, end, j + 1)
}

fn hits_of(pattern: &IgnorePattern, parts: &Vec<Vec<char>>, end: usize) -> (hit: bool)
    requires
        end <= parts@.len(),
    ensures
        hit == hits(pattern@, views(parts@).take(end as int)),
{
    if pattern.anchored {
        path_from(&pattern.pieces, 0, parts, end, 0)
    } else if end > 0 && pattern.pieces.len() > 0 {
        assert(views(pattern.pieces@)[0] == pattern.pieces@[0]@);
        assert(views(parts@).take(end as int).last() == parts@[end - 1]@);
        glob_matches(&pattern.pieces[0], &parts[end - 1])
    } else {
        false
    }
}

fn any_hit(patterns: &Vec<IgnorePattern>, parts: &Vec<Vec<char>>, end: usize) -> (hit: bool)
    requires
        end <= parts@.len(),
    ensures
        hit == exists|q: int|
            0 <= q < patterns@.len() && #[trigger] hits(pattern_views(patterns@)[q], views(parts@).take(end as int)),
{
    let ghost ps = pattern_views(patterns@);
    let mut q: usize = 0;
    while q < patterns.len()
        invariant
            q <= patterns@.len(),
            end <= parts@.len(),
            ps == pattern_views(patterns@),
            forall|r: int| 0 <= r < q ==> !#[trigger] hits(ps[r], views(parts@).take(end as int)),
        decreases patterns@.len() - q,
    {
        assert(ps[q as int] == patterns@[q as int]@);
        if hits_of(&patterns[q], parts, end) {
            return true;
        }
        q = q + 1;
    }
    false
}

fn is_default_ignored(name: &Vec<char>) -> (ignored: bool)
    ensures
        ignored == default_ignored(name@),
{
    let n = name.len();
    let target = chars_of("target");
    let modules = chars_of("node_modules");
    crate::guard::is_hidden_chars(name) || same_chars(name, &target) || same_chars(name, &modules) || (n > 0
        && name[n - 1] == '~') || (n >= 4 && name[n - 4] == '.' && name[n - 3] == 's' && name[n - 2] == 'w'
        && name[n - 1] == 'p') || (n >= 2 && name[0] == '#' && name[n - 1] == '#')
}

/// Whether a change at `relative`, a path below the served directory with
/// `/` between its names, is one not to refresh for, given the patterns read
/// and whether letter case is set aside.
pub fn ignores(patterns: &Vec<IgnorePattern>, relative: &str, fold_case: bool) -> (ignored: bool)
    ensures
        ignored == ignored_path(pattern_views(patterns@), relative@, fold_case),
{
    let chars = folded_chars(relative, fold_case);
    let parts = component_list(&chars);
    let ghost ps = pattern_views(patterns@);
    let ghost all = views(parts@);
    assert(all == components(chars@));
    let mut m: usize = 0;
    while m < parts.len()
        invariant
            m <= parts@.len(),
            all == views(parts@),
            all == components(folded(relative@, fold_case)),
            ps == pattern_views(patterns@),
            forall|x: int| 0 <= x < m ==> !#[trigger] ignored_at(ps, all, x),
        decreases parts@.len() - m,
    {
        assert(all[m as int] == parts@[m as int]@);
        if is_default_ignored(&parts[m]) || any_hit(patterns, &parts, m + 1) {
            assert(ignored_at(ps, all, m as int));
            return true;
        }
        m = m + 1;
    }
    false
}

// ---------------------------------------------------------------------------
// Reading patterns, and refusing them

/// Why a pattern is refused, in words.
pub open spec fn reason(why: Refusal) -> Seq<char> {
    match why {
        Refusal::NamesNothing => "the pattern names nothing"@,
        Refusal::UnclosedClass => "a [ has no ] to close it"@,
    }
}

/// Where a refused pattern came from: nothing for one given on the command
/// line, its line number for one from the ignore file.
pub open spec fn place(line: Option<usize>) -> Seq<char> {
    match line {
        Some(n) => ", line "@ + text::decimal(n as nat) + " of "@ + IGNORE_FILE@,
        None => Seq::empty(),
    }
}

/// What is said of a refused pattern.
pub open spec fn refusal_text(pattern: Seq<char>, line: Option<usize>, why: Refusal) -> Seq<char> {
    "cannot ignore \""@ + pattern + "\""@ + place(line) + ": "@ + reason(why)
}

/// What is said of a refused pattern, with its line where it comes from the
/// ignore file.
pub fn refusal(pattern: &str, line: Option<usize>, why: Refusal) -> (said: String)
    ensures
        said@ == refusal_text(pattern@, line, why),
{
    let mut said = String::new();
    said.append("cannot ignore \"");
    said.append(pattern);
    said.append("\"");
    let ghost before = said@;
    match line {
        Some(n) => {
            said.append(", line ");
            push_decimal(&mut said, n as u64);
            said.append(" of ");
            said.append(IGNORE_FILE);
            assert(said@ == before + place(line));
        },
        None => {
            assert(said@ == before + place(line));
        },
    }
    said.append(": ");
    match why {
        Refusal::NamesNothing => said.append("the pattern names nothing"),
        Refusal::UnclosedClass => said.append("a [ has no ] to close it"),
    }
    said
}

/// The patterns of some texts, in order, each with the line it came from, if
/// any; or what is said of the first one refused.
pub open spec fn all_patterns(sources: Seq<(Option<usize>, String)>, fold_case: bool) -> Result<Seq<PatternView>, Seq<char>>
    decreases sources.len(),
{
    if sources.len() == 0 {
        Ok(Seq::empty())
    } else {
        match all_patterns(sources.drop_last(), fold_case) {
            Err(said) => Err(said),
            Ok(before) => {
                let (line, text) = sources.last();
                match pattern_of(folded(text@, fold_case)) {
                    Ok(p) => Ok(before.push(p)),
                    Err(why) => Err(refusal_text(text@, line, why)),
                }
            },
        }
    }
}

proof fn lemma_refused_early(sources: Seq<(Option<usize>, String)>, fold_case: bool, m: int)
    requires
        0 <= m <= sources.len(),
        all_patterns(sources.take(m), fold_case) is Err,
    ensures
        all_patterns(sources, fold_case) == all_patterns(sources.take(m), fold_case),
    decreases sources.len(),
{
    if m < sources.len() {
        assert(sources.drop_last().take(m) == sources.take(m));
        lemma_refused_early(sources.drop_last(), fold_case, m);
    } else {
        assert(sources.take(m) == sources);
    }
}

/// Reads the patterns given, each with the line of the ignore file it came
/// from, if any: all of them, or what is said of the first one refused.
pub fn patterns_from(sources: &Vec<(Option<usize>, String)>, fold_case: bool) -> (read: Result<Vec<IgnorePattern>, String>)
    ensures
        match read {
            Ok(patterns) => all_patterns(sources@, fold_case) == Ok::<Seq<PatternView>, Seq<char>>(
                pattern_views(patterns@),
            ),
            Err(said) => all_patterns(sources@, fold_case) == Err::<Seq<PatternView>, Seq<char>>(said@),
        },
{
    let mut patterns: Vec<IgnorePattern> = Vec::new();
    let mut k: usize = 0;
    assert(sources@.take(0) == Seq::<(Option<usize>, String)>::empty());
    assert(pattern_views(patterns@) == Seq::<PatternView>::empty());
    while k < sources.len()
        invariant
            k <= sources@.len(),
            all_patterns(sources@.take(k as int), fold_case) == Ok::<Seq<PatternView>, Seq<char>>(
                pattern_views(patterns@),
            ),
        decreases sources@.len() - k,
    {
        assert(sources@.take(k + 1).drop_last() == sources@.take(k as int));
        assert(sources@.take(k + 1).last() == sources@[k as int]);
        let text = sources[k].1.as_str();
        match pattern_from(text, fold_case) {
            Ok(pattern) => {
                let ghost before = patterns@;
                patterns.push(pattern);
                assert(pattern_views(patterns@) == pattern_views(before).push(pattern@));
            },
            Err(why) => {
                let said = refusal(text, sources[k].0, why);
                proof {
                    lemma_refused_early(sources@, fold_case, k + 1);
                }
                return Err(said);
            },
        }
        k = k + 1;
    }
    assert(sources@.take(sources@.len() as int) == sources@);
    Ok(patterns)
}

// ---------------------------------------------------------------------------
// The ignore file

/// The characters `str::trim` takes away: those with Unicode's White_Space
/// property.
pub open spec fn white(c: char) -> bool {
    let n = c as u32;
    ||| 0x09 <= n <= 0x0D
    ||| n == 0x20
    ||| n == 0x85
    ||| n == 0xA0
    ||| n == 0x1680
    ||| 0x2000 <= n <= 0x200A
    ||| n == 0x2028
    ||| n == 0x2029
    ||| n == 0x202F
    ||| n == 0x205F
    ||| n == 0x3000
}

pub open spec fn trim_start(s: Seq<char>) -> Seq<char>
    decreases s.len(),
{
    if s.len() > 0 && white(s[0]) {
        trim_start(s.drop_first())
    } else {
        s
    }
}

pub open spec fn trim_end(s: Seq<char>) -> Seq<char>
    decreases s.len(),
{
    if s.len() > 0 && white(s.last()) {
        trim_end(s.drop_last())
    } else {
        s
    }
}

/// A line without the white space at either end.
pub open spec fn trimmed(s: Seq<char>) -> Seq<char> {
    trim_end(trim_start(s))
}

/// The text without the byte order mark it may start with.
pub open spec fn without_mark(text: Seq<char>) -> Seq<char> {
    if text.len() > 0 && text[0] == '\u{feff}' {
        text.drop_first()
    } else {
        text
    }
}

/// The lines of a text, as `str::lines` gives them before they are trimmed:
/// the pieces between line feeds, with no empty line after the last feed.
pub open spec fn lines_of(text: Seq<char>) -> Seq<Seq<char>> {
    let pieces = text::split(text, '\n');
    if pieces.last().len() == 0 {
        pieces.drop_last()
    } else {
        pieces
    }
}

/// The trimmed lines that hold a pattern, each with its number from 1: not
/// the blank ones, nor those starting with `#`.
pub open spec fn kept(lines: Seq<Seq<char>>) -> Seq<(int, Seq<char>)>
    decreases lines.len(),
{
    if lines.len() == 0 {
        Seq::empty()
    } else {
        let before = kept(lines.drop_last());
        let line = trimmed(lines.last());
        if line.len() == 0 || line[0] == '#' {
            before
        } else {
            before.push((lines.len() as int, line))
        }
    }
}

/// The patterns an ignore file holds, with their line numbers.
pub open spec fn kept_lines(contents: Seq<char>) -> Seq<(int, Seq<char>)> {
    kept(lines_of(without_mark(contents)))
}

fn is_white(c: char) -> (w: bool)
    ensures
        w == white(c),
{
    let n = c as u32;
    (0x09 <= n && n <= 0x0D) || n == 0x20 || n == 0x85 || n == 0xA0 || n == 0x1680 || (0x2000 <= n && n
        <= 0x200A) || n == 0x2028 || n == 0x2029 || n == 0x202F || n == 0x205F || n == 0x3000
}

pub(crate) fn copy_range(chars: &Vec<char>, from: usize, to: usize) -> (part: Vec<char>)
    requires
        from <= to <= chars@.len(),
    ensures
        part@ == chars@.subrange(from as int, to as int),
{
    let mut part: Vec<char> = Vec::new();
    let mut i = from;
    while i < to
        invariant
            from <= i <= to <= chars@.len(),
            part@ == chars@.subrange(from as int, i as int),
        decreases to - i,
    {
        part.push(chars[i]);
        assert(chars@.subrange(from as int, i + 1) == chars@.subrange(from as int, i as int).push(chars@[i as int]));
        i = i + 1;
    }
    part
}

fn trim_chars(line: &Vec<char>) -> (trimmed_line: Vec<char>)
    ensures
        trimmed_line@ == trimmed(line@),
{
    let n = line.len();
    let mut a: usize = 0;
    assert(line@.subrange(0, n as int) == line@);
    while a < n && is_white(line[a])
        invariant
            a <= n == line@.len(),
            trim_start(line@) == trim_start(line@.subrange(a as int, n as int)),
        decreases n - a,
    {
        assert(line@.subrange(a as int, n as int).drop_first() == line@.subrange(a + 1, n as int));
        a = a + 1;
    }
    assert(trim_start(line@) == line@.subrange(a as int, n as int));
    let ghost start = line@.subrange(a as int, n as int);
    let mut b: usize = n;
    while b > a && is_white(line[b - 1])
        invariant
            a <= b <= n == line@.len(),
            start == line@.subrange(a as int, n as int),
            trim_end(start) == trim_end(line@.subrange(a as int, b as int)),
        decreases b - a,
    {
        assert(line@.subrange(a as int, b as int).drop_last() == line@.subrange(a as int, b - 1));
        b = b - 1;
    }
    copy_range(line, a, b)
}

/// The patterns an ignore file holds, one to a line, trimmed, with their
/// line numbers from 1; blank lines, lines starting with `#`, and a byte
/// order mark at the start are not patterns.
pub fn ignore_file_lines(contents: &str) -> (lines: Vec<(usize, String)>)
    ensures
        lines@.len() == kept_lines(contents@).len(),
        forall|i: int|
            0 <= i < lines@.len() ==> (#[trigger] lines@[i]).0 == kept_lines(contents@)[i].0 && lines@[i].1@
                == kept_lines(contents@)[i].1,
{
    let chars = chars_of(contents);
    let body = if chars.len() > 0 && chars[0] == '\u{feff}' {
        copy_range(&chars, 1, chars.len())
    } else {
        copy_range(&chars, 0, chars.len())
    };
    assert(body@ == without_mark(contents@));
    let pieces = split_chars(&body, '\n');
    proof {
        text::lemma_split_not_empty(body@, '\n');
    }
    let ghost all = text::split(body@, '\n');
    let count = if pieces[pieces.len() - 1].len() == 0 {
        pieces.len() - 1
    } else {
        pieces.len()
    };
    let ghost lines = all.take(count as int);
    assert(lines == lines_of(body@)) by {
        if all.last().len() == 0 {
            assert(all.drop_last() == lines);
        } else {
            assert(all == lines);
        }
    }
    let mut out: Vec<(usize, String)> = Vec::new();
    let mut k: usize = 0;
    while k < count
        invariant
            k <= count <= pieces@.len(),
            pieces@.len() == all.len(),
            lines == all.take(count as int),
            forall|j: int| 0 <= j < pieces@.len() ==> #[trigger] pieces@[j]@ == all[j],
            out@.len() == kept(lines.take(k as int)).len(),
            forall|i: int|
                0 <= i < out@.len() ==> (#[trigger] out@[i]).0 == kept(lines.take(k as int))[i].0 && out@[i].1@
                    == kept(lines.take(k as int))[i].1,
        decreases count - k,
    {
        assert(lines.take(k + 1).drop_last() == lines.take(k as int));
        assert(lines.take(k + 1).last() == pieces@[k as int]@);
        let line = trim_chars(&pieces[k]);
        if line.len() > 0 && line[0] != '#' {
            let text = text_of(&line);
            out.push((k + 1, text));
        }
        k = k + 1;
    }
    assert(lines.take(count as int) == lines);
    out
}

// ---------------------------------------------------------------------------
// Laws

/// Ignoring a path ignores everything below it: a pattern that matches a
/// folder keeps changes anywhere inside it from refreshing.
pub proof fn law_what_is_inside_an_ignored_folder_is_ignored(
    patterns: Seq<PatternView>,
    parts: Seq<Seq<char>>,
    more: Seq<Seq<char>>,
)
    requires
        ignored_parts(patterns, parts),
    ensures
        ignored_parts(patterns, parts + more),
{
    let m = choose|m: int| 0 <= m < parts.len() && #[trigger] ignored_at(patterns, parts, m);
    let all = parts + more;
    assert(all[m] == parts[m]);
    assert(all.take(m + 1) == parts.take(m + 1));
    if !default_ignored(parts[m]) {
        let q = choose|q: int| 0 <= q < patterns.len() && #[trigger] hits(patterns[q], parts.take(m + 1));
        assert(hits(patterns[q], all.take(m + 1)));
    }
    assert(ignored_at(patterns, all, m));
}

/// Hidden names, build output, dependencies and editors' scratch files are
/// ignored wherever they are on the path, whatever the patterns.
pub proof fn law_names_never_watched_are_ignored(patterns: Seq<PatternView>, parts: Seq<Seq<char>>, m: int)
    requires
        0 <= m < parts.len(),
        default_ignored(parts[m]),
    ensures
        ignored_parts(patterns, parts),
{
    assert(ignored_at(patterns, parts, m));
}

/// More patterns never ignore less.
pub proof fn law_more_patterns_ignore_no_less(
    patterns: Seq<PatternView>,
    extra: Seq<PatternView>,
    parts: Seq<Seq<char>>,
)
    requires
        ignored_parts(patterns, parts),
    ensures
        ignored_parts(patterns + extra, parts),
{
    let all = patterns + extra;
    let m = choose|m: int| 0 <= m < parts.len() && #[trigger] ignored_at(patterns, parts, m);
    if !default_ignored(parts[m]) {
        let q = choose|q: int| 0 <= q < patterns.len() && #[trigger] hits(patterns[q], parts.take(m + 1));
        assert(all[q] == patterns[q]);
        assert(hits(all[q], parts.take(m + 1)));
    }
    assert(ignored_at(all, parts, m));
}

/// A pattern without a slash matches a name at any depth: a change at a path
/// that passes through a name it matches is ignored.
pub proof fn law_a_pattern_without_a_slash_matches_at_any_depth(
    text: Seq<char>,
    patterns: Seq<PatternView>,
    q: int,
    parts: Seq<Seq<char>>,
    m: int,
)
    requires
        !text.contains('/'),
        pattern_of(text) is Ok,
        0 <= q < patterns.len(),
        patterns[q] == pattern_of(text)->Ok_0,
        0 <= m < parts.len(),
        glob(text, parts[m]),
    ensures
        ignored_parts(patterns, parts),
{
    text::lemma_split_without_sep(text, '/');
    assert(text::split(text, '/') == seq![text]);
    assert(seq![text].drop_last() == Seq::<Seq<char>>::empty());
    reveal_with_fuel(nonempty, 2);
    assert(text.len() > 0);
    assert(nonempty(seq![text]) == seq![text]);
    assert(parts.take(m + 1).last() == parts[m]);
    assert(hits(patterns[q], parts.take(m + 1)));
    assert(ignored_at(patterns, parts, m));
}

/// Whether a name is one whose changes are never watched, written out: a
/// hidden name other than `.well-known`, `target`, `node_modules`, a backup
/// ending in `~`, a swap file ending in `.swp`, or an autosave between `#`s.
pub open spec fn never_watched(name: Seq<char>) -> bool {
    ||| (name.len() > 0 && name[0] == '.' && name != ".well-known"@)
    ||| name =~= seq!['t', 'a', 'r', 'g', 'e', 't']
    ||| name =~= seq!['n', 'o', 'd', 'e', '_', 'm', 'o', 'd', 'u', 'l', 'e', 's']
    ||| (name.len() >= 1 && name[name.len() - 1] == '~')
    ||| (name.len() >= 4 && name.subrange(name.len() - 4, name.len() as int) =~= seq!['.', 's', 'w', 'p'])
    ||| (name.len() >= 2 && name[0] == '#' && name[name.len() - 1] == '#')
}

/// A change below a hidden folder, `target` or `node_modules`, or at an
/// editor's scratch file, is ignored whatever the patterns: for every path
/// with such a name among those it goes through.
pub proof fn law_a_path_through_a_name_never_watched_is_ignored(
    patterns: Seq<PatternView>,
    relative: Seq<char>,
    fold_case: bool,
    m: int,
)
    requires
        0 <= m < components(folded(relative, fold_case)).len(),
        never_watched(components(folded(relative, fold_case))[m]),
    ensures
        ignored_path(patterns, relative, fold_case),
{
    let parts = components(folded(relative, fold_case));
    let name = parts[m];
    reveal_strlit("target");
    reveal_strlit("node_modules");
    if name.len() >= 4 && name.subrange(name.len() - 4, name.len() as int) =~= seq!['.', 's', 'w', 'p'] {
        assert(name[name.len() - 4] == name.subrange(name.len() - 4, name.len() as int)[0]);
        assert(name[name.len() - 3] == name.subrange(name.len() - 4, name.len() as int)[1]);
        assert(name[name.len() - 2] == name.subrange(name.len() - 4, name.len() as int)[2]);
        assert(name[name.len() - 1] == name.subrange(name.len() - 4, name.len() as int)[3]);
    }
    assert("target"@ =~= seq!['t', 'a', 'r', 'g', 'e', 't']);
    assert("node_modules"@ =~= seq!['n', 'o', 'd', 'e', '_', 'm', 'o', 'd', 'u', 'l', 'e', 's']);
    assert(default_ignored(name));
    assert(ignored_at(patterns, parts, m));
}

/// With no patterns, nothing else is ignored: a change is ignored only where
/// its path goes through a name never watched.
pub proof fn law_without_patterns_only_names_never_watched_are_ignored(relative: Seq<char>, fold_case: bool)
    requires
        ignored_path(Seq::empty(), relative, fold_case),
    ensures
        exists|m: int|
            0 <= m < components(folded(relative, fold_case)).len() && #[trigger] never_watched(
                components(folded(relative, fold_case))[m],
            ),
{
    let parts = components(folded(relative, fold_case));
    let m = choose|m: int| 0 <= m < parts.len() && #[trigger] ignored_at(Seq::<PatternView>::empty(), parts, m);
    let name = parts[m];
    reveal_strlit("target");
    reveal_strlit("node_modules");
    assert(default_ignored(name));
    if name.len() >= 4 && name[name.len() - 4] == '.' && name[name.len() - 3] == 's' && name[name.len() - 2] == 'w'
        && name[name.len() - 1] == 'p' {
        assert(name.subrange(name.len() - 4, name.len() as int) =~= seq!['.', 's', 'w', 'p']);
    }
    if name == "target"@ {
        assert(name =~= seq!['t', 'a', 'r', 'g', 'e', 't']);
    }
    if name == "node_modules"@ {
        assert(name =~= seq!['n', 'o', 'd', 'e', '_', 'm', 'o', 'd', 'u', 'l', 'e', 's']);
    }
    assert(never_watched(parts[m]));
}

/// Whether a text holds none of the characters globs give a meaning to.
pub open spec fn plain(p: Seq<char>) -> bool {
    forall|i: int| 0 <= i < p.len() ==> #[trigger] p[i] != '*' && p[i] != '?' && p[i] != '['
}

proof fn lemma_plain_glob(p: Seq<char>, i: int, n: Seq<char>, j: int)
    requires
        plain(p),
        0 <= i <= p.len(),
        0 <= j <= n.len(),
    ensures
        glob_at(p, i, n, j) <==> p.subrange(i, p.len() as int) == n.subrange(j, n.len() as int),
    decreases p.len() - i,
{
    if i < p.len() {
        assert(p[i] != '*' && p[i] != '?' && p[i] != '[');
        if j < n.len() {
            assert(glob_at(p, i, n, j) == (p[i] == n[j] && glob_at(p, i + 1, n, j + 1)));
            lemma_plain_glob(p, i + 1, n, j + 1);
            assert(p.subrange(i, p.len() as int) == seq![p[i]] + p.subrange(i + 1, p.len() as int));
            assert(n.subrange(j, n.len() as int) == seq![n[j]] + n.subrange(j + 1, n.len() as int));
            if glob_at(p, i, n, j) {
                assert(p[i] == n[j]);
                assert(p.subrange(i + 1, p.len() as int) == n.subrange(j + 1, n.len() as int));
                assert(seq![p[i]] + p.subrange(i + 1, p.len() as int) =~= seq![n[j]] + n.subrange(j + 1, n.len() as int));
                assert(p.subrange(i, p.len() as int) =~= n.subrange(j, n.len() as int));
            }
            if p.subrange(i, p.len() as int) == n.subrange(j, n.len() as int) {
                assert(p.subrange(i, p.len() as int)[0] == n.subrange(j, n.len() as int)[0]);
                assert(p.subrange(i + 1, p.len() as int) == p.subrange(i, p.len() as int).skip(1));
                assert(n.subrange(j + 1, n.len() as int) == n.subrange(j, n.len() as int).skip(1));
            }
        } else {
            assert(!glob_at(p, i, n, j));
            assert(n.subrange(j, n.len() as int).len() == 0);
            assert(p.subrange(i, p.len() as int).len() > 0);
        }
    } else {
        assert(glob_at(p, i, n, j) == (j >= n.len()));
        assert(p.subrange(i, p.len() as int).len() == 0);
        if j < n.len() {
            assert(n.subrange(j, n.len() as int).len() > 0);
        } else {
            assert(n.subrange(j, n.len() as int) =~= Seq::<char>::empty());
            assert(p.subrange(i, p.len() as int) =~= n.subrange(j, n.len() as int));
        }
    }
}

/// A pattern with no `*`, `?` or `[` matches exactly the name it spells.
pub proof fn law_a_plain_pattern_matches_only_its_own_name(p: Seq<char>, name: Seq<char>)
    requires
        plain(p),
    ensures
        glob(p, name) <==> p == name,
{
    lemma_plain_glob(p, 0, name, 0);
    assert(p.subrange(0, p.len() as int) == p);
    assert(name.subrange(0, name.len() as int) == name);
}

proof fn lemma_star_suffix(suffix: Seq<char>, n: Seq<char>, j: int)
    requires
        plain(suffix),
        0 <= j <= n.len(),
    ensures
        glob_at(seq!['*'] + suffix, 0, n, j) <==> (suffix.len() <= n.len() - j && n.subrange(
            n.len() - suffix.len(),
            n.len() as int,
        ) == suffix),
    decreases n.len() - j,
{
    let p = seq!['*'] + suffix;
    assert(p[0] == '*');
    assert(plain(p.subrange(1, p.len() as int))) by {
        assert(p.subrange(1, p.len() as int) == suffix);
    }
    assert forall|k: int| 0 <= k < p.len() - 1 implies #[trigger] p[k + 1] == suffix[k] by {}
    lemma_plain_tail(p, suffix, n, j);
    if j < n.len() {
        lemma_star_suffix(suffix, n, j + 1);
        if suffix.len() == n.len() - j {
            assert(n.subrange(n.len() - suffix.len(), n.len() as int) == n.subrange(j, n.len() as int));
        }
    } else {
        if suffix.len() == 0 {
            assert(n.subrange(n.len() - suffix.len(), n.len() as int) =~= suffix);
        }
    }
}

proof fn lemma_plain_tail(p: Seq<char>, suffix: Seq<char>, n: Seq<char>, j: int)
    requires
        p == seq!['*'] + suffix,
        plain(suffix),
        0 <= j <= n.len(),
    ensures
        glob_at(p, 1, n, j) <==> n.subrange(j, n.len() as int) == suffix,
{
    let rest = p.subrange(1, p.len() as int);
    assert(rest =~= suffix);
    lemma_shifted_glob(p, suffix, n, 1, j);
    lemma_plain_glob(suffix, 0, n, j);
    assert(suffix.subrange(0, suffix.len() as int) == suffix);
}

proof fn lemma_shifted_glob(p: Seq<char>, suffix: Seq<char>, n: Seq<char>, i: int, j: int)
    requires
        p == seq!['*'] + suffix,
        plain(suffix),
        1 <= i <= p.len(),
        0 <= j <= n.len(),
    ensures
        glob_at(p, i, n, j) == glob_at(suffix, i - 1, n, j),
    decreases p.len() - i,
{
    if i < p.len() {
        assert(p[i] == suffix[i - 1]);
        assert(suffix[i - 1] != '*' && suffix[i - 1] != '?' && suffix[i - 1] != '[');
        if j < n.len() {
            lemma_shifted_glob(p, suffix, n, i + 1, j + 1);
        }
    }
}

/// A pattern of `*` and then plain characters matches exactly the names that
/// end in those characters: `*.log` matches every name ending in `.log`, and
/// no other.
pub proof fn law_a_star_and_a_plain_ending_match_names_with_that_ending(suffix: Seq<char>, name: Seq<char>)
    requires
        plain(suffix),
    ensures
        glob(seq!['*'] + suffix, name) <==> (suffix.len() <= name.len() && name.subrange(
            name.len() - suffix.len(),
            name.len() as int,
        ) == suffix),
{
    lemma_star_suffix(suffix, name, 0);
}

proof fn lemma_fixed_depth(pieces: Seq<Seq<char>>, i: int, parts: Seq<Seq<char>>, j: int)
    requires
        0 <= i <= pieces.len(),
        0 <= j <= parts.len(),
        forall|k: int| i <= k < pieces.len() ==> !any_depth(#[trigger] pieces[k]),
        path_at(pieces, i, parts, j),
    ensures
        parts.len() - j == pieces.len() - i,
    decreases pieces.len() - i,
{
    if i < pieces.len() {
        lemma_fixed_depth(pieces, i + 1, parts, j + 1);
    }
}

/// An anchored pattern without `**` matches only paths as deep as it has
/// pieces: `/cache` only what is directly inside the served directory, and
/// `build/*.log` only what is directly inside `build`.
pub proof fn law_an_anchored_pattern_without_any_depth_matches_at_its_own_depth(
    pattern: PatternView,
    parts: Seq<Seq<char>>,
)
    requires
        pattern.anchored,
        forall|k: int| 0 <= k < pattern.pieces.len() ==> !any_depth(#[trigger] pattern.pieces[k]),
        hits(pattern, parts),
    ensures
        parts.len() == pattern.pieces.len(),
{
    lemma_fixed_depth(pattern.pieces, 0, parts, 0);
}

} // verus!
