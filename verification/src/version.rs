//! Whether a browser's copy of a file is still current, told by which file it
//! is, its size and the time it was written, to the nanosecond where the disk
//! keeps it. The file service compares whole seconds only, so it would answer a
//! file rolled back to an older copy, or saved twice within a second, as
//! unchanged.

use crate::list::SinceEpoch;
use crate::text::{self, chars_of, push_char, split_chars};
use std::hash::{Hash, Hasher};
use vstd::prelude::*;

verus! {

/// Which file this is, by the system's own number for it.
#[allow(inconsistent_fields)]
#[derive(Clone, Copy, Debug, PartialEq, Eq, Structural)]
pub enum FileIdentity {
    /// Device and inode, on Linux and macOS.
    Inode { device_id: u64, inode_number: u64 },
    /// Volume serial number and the low part of the file's index, on Windows.
    LowRes { volume_serial_number: u32, file_index: u64 },
    /// Volume serial number and the whole file ID, on Windows.
    HighRes { volume_serial_number: u64, file_id: u128 },
}

/// The number `DefaultHasher` makes from a file's parts.
pub uninterp spec fn version_number(identity: Option<FileIdentity>, len: u64, seconds: u64, nanos: u32) -> u64;

/// One number made from all the parts of a version, so the tag shows nothing
/// of the disk, such as an inode.
///
/// Hashes the parts, with the file's identity as `file_id::FileId`, as a tuple
/// with `std::hash::DefaultHasher`, whose keys are fixed, so the same parts give
/// the same number on every run. The number itself is left to the name
/// `version_number`.
#[verifier::external_body]
fn hashed(identity: Option<FileIdentity>, len: u64, seconds: u64, nanos: u32) -> (number: u64)
    ensures
        number == version_number(identity, len, seconds, nanos),
{
    let identity = identity.map(|identity| match identity {
        FileIdentity::Inode { device_id, inode_number } => file_id::FileId::Inode { device_id, inode_number },
        FileIdentity::LowRes { volume_serial_number, file_index } => file_id::FileId::LowRes { volume_serial_number, file_index },
        FileIdentity::HighRes { volume_serial_number, file_id } => file_id::FileId::HighRes { volume_serial_number, file_id },
    });
    let mut parts = std::hash::DefaultHasher::new();
    (identity, len, seconds, nanos).hash(&mut parts);
    parts.finish()
}

/// The character for a hexadecimal digit, in lower case.
pub open spec fn hex_lower(d: int) -> char {
    if d < 10 {
        (d + 48) as char
    } else {
        (d + 87) as char
    }
}

/// The lowest `count` hexadecimal digits of `n`, zeros in front.
pub open spec fn hex_digits(n: nat, count: nat) -> Seq<char>
    decreases count,
{
    if count == 0 {
        Seq::empty()
    } else {
        hex_digits(n / 16, (count - 1) as nat).push(hex_lower((n % 16) as int))
    }
}

fn push_hex_digits(out: &mut String, n: u64, count: usize)
    ensures
        final(out)@ == old(out)@ + hex_digits(n as nat, count as nat),
    decreases count,
{
    if count == 0 {
        return;
    }
    push_hex_digits(out, n / 16, count - 1);
    let d = n % 16;
    let c = if d < 10 {
        ((d as u8) + 48u8) as char
    } else {
        ((d as u8) + 87u8) as char
    };
    push_char(out, c);
}

/// A weak tag, `W/"..."`, with the number in sixteen hexadecimal digits. Weak,
/// since compression and the reload script change the bytes sent without
/// changing the file.
pub open spec fn tag_text(number: u64) -> Seq<char> {
    "W/\""@ + hex_digits(number as nat, 16) + "\""@
}

/// A file as it was when it was looked at.
pub struct Version {
    pub tag: String,
    pub written_second: u64,
}

impl Version {
    /// None where the system cannot say when the file was written, or says it
    /// was before 1970. `identity` is which file this is, where the system can
    /// say.
    pub fn of(identity: Option<FileIdentity>, len: u64, modified: Option<SinceEpoch>) -> (version: Option<Version>)
        ensures
            match modified {
                Some(SinceEpoch::After { seconds, nanos }) => version matches Some(v) && v.tag@ == tag_text(
                    version_number(identity, len, seconds, nanos),
                ) && v.written_second == seconds,
                _ => version is None,
            },
    {
        let (seconds, nanos) = match modified {
            Some(SinceEpoch::After { seconds, nanos }) => (seconds, nanos),
            _ => return None,
        };
        let number = hashed(identity, len, seconds, nanos);
        let mut tag = String::new();
        tag.append("W/\"");
        push_hex_digits(&mut tag, number, 16);
        tag.append("\"");
        Some(Version { tag, written_second: seconds })
    }

    pub fn tag(&self) -> (tag: String)
        ensures
            tag@ == self.tag@,
    {
        self.tag.clone()
    }

    /// Whether an `If-None-Match` names this version. Tags are compared without
    /// their weak mark, as that header asks, and `*` names every version. A
    /// header that is not text (`None`) names none.
    pub fn is_named_in(&self, if_none_match: Option<&str>) -> (named: bool)
        ensures
            named == match if_none_match {
                Some(tags) => names_tag(tags@, self.tag@),
                None => false,
            },
    {
        match if_none_match {
            Some(tags) => names_a_tag(tags, self.tag.as_str()),
            None => false,
        }
    }

    /// Whether a date names the second this version was written. A header
    /// that is not text (`None`) names none.
    pub fn was_written_at(&self, date: Option<&str>) -> (written: bool)
        ensures
            written == match date {
                Some(date) => http_date_seconds(date@) == Some(self.written_second),
                None => false,
            },
    {
        match date {
            Some(date) => match parse_date(date) {
                Some(seconds) => seconds == self.written_second,
                None => false,
            },
            None => false,
        }
    }
}

/// The second an HTTP date names, counted from the start of 1970; `None`
/// where `httpdate` cannot read it, or it is before 1970.
pub uninterp spec fn http_date_seconds(date: Seq<char>) -> Option<u64>;

/// Reads an HTTP date with `httpdate::parse_http_date`, and counts its seconds
/// since the start of 1970. Which dates the crate reads (IMF-fixdate, RFC 850,
/// asctime) is left to the name `http_date_seconds`.
#[verifier::external_body]
fn parse_date(date: &str) -> (seconds: Option<u64>)
    ensures
        seconds == http_date_seconds(date@),
{
    match httpdate::parse_http_date(date) {
        Ok(at) => match at.duration_since(std::time::UNIX_EPOCH) {
            Ok(after) => Some(after.as_secs()),
            Err(_) => None,
        },
        Err(_) => None,
    }
}

/// The whitespace `char::is_whitespace` knows: Unicode's White_Space.
pub open spec fn white(c: char) -> bool {
    let n = c as u32;
    (9 <= n <= 13) || n == 32 || n == 0x85 || n == 0xA0 || n == 0x1680 || (0x2000 <= n <= 0x200A)
        || n == 0x2028 || n == 0x2029 || n == 0x202F || n == 0x205F || n == 0x3000
}

fn is_white(c: char) -> (answer: bool)
    ensures
        answer == white(c),
{
    let n = c as u32;
    (9 <= n && n <= 13) || n == 32 || n == 0x85 || n == 0xA0 || n == 0x1680 || (0x2000 <= n && n
        <= 0x200A) || n == 0x2028 || n == 0x2029 || n == 0x202F || n == 0x205F || n == 0x3000
}

/// Whether `text` runs from `start` to `end` with only whitespace outside that.
pub open spec fn trimmed_at(text: Seq<char>, start: int, end: int) -> bool {
    &&& 0 <= start <= end <= text.len()
    &&& forall|i: int| 0 <= i < start ==> white(#[trigger] text[i])
    &&& forall|i: int| end <= i < text.len() ==> white(#[trigger] text[i])
    &&& start < end ==> !white(text[start]) && !white(text[end - 1])
}

/// `text` without the whitespace around it, as `str::trim` gives it.
pub open spec fn trimmed(text: Seq<char>) -> Seq<char> {
    let ends = choose|ends: (int, int)| trimmed_at(text, ends.0, ends.1);
    text.subrange(ends.0, ends.1)
}

/// `tag` without `W/` in front, if it has one.
pub open spec fn unweak(tag: Seq<char>) -> Seq<char> {
    if tag.len() >= 2 && tag[0] == 'W' && tag[1] == '/' {
        tag.skip(2)
    } else {
        tag
    }
}

/// Whether a list of tags, separated by commas, names `ours`: `*`, or the
/// same tag once the weak marks are off.
pub open spec fn names_tag(tags: Seq<char>, ours: Seq<char>) -> bool {
    exists|k: int|
        0 <= k < text::split(tags, ',').len() && ({
            let tag = trimmed(#[trigger] text::split(tags, ',')[k]);
            tag == "*"@ || unweak(tag) == unweak(ours)
        })
}

/// The tag without its weak mark, as `If-None-Match` compares them.
pub fn without_weak_mark(tag: &str) -> (bare: String)
    ensures
        bare@ == unweak(tag@),
{
    let chars = chars_of(tag);
    let mut bare = String::new();
    let start: usize = if chars.len() >= 2 && chars[0] == 'W' && chars[1] == '/' {
        2
    } else {
        0
    };
    let mut i = start;
    while i < chars.len()
        invariant
            start <= i <= chars.len(),
            bare@ == chars@.subrange(start as int, i as int),
        decreases chars.len() - i,
    {
        push_char(&mut bare, chars[i]);
        i = i + 1;
    }
    assert(bare@ =~= unweak(tag@));
    bare
}

proof fn lemma_trimmed(text: Seq<char>, start: int, end: int)
    requires
        trimmed_at(text, start, end),
    ensures
        trimmed(text) == text.subrange(start, end),
{
    let witness = (start, end);
    assert(trimmed_at(text, witness.0, witness.1));
    let ends = choose|ends: (int, int)| trimmed_at(text, ends.0, ends.1);
    assert(trimmed_at(text, ends.0, ends.1));
    if start < end {
        if ends.0 < start {
            assert(white(text[ends.0]));
        }
        if start < ends.0 {
            assert(white(text[start]));
        }
        if ends.1 < end {
            assert(white(text[end - 1]));
        }
        if end < ends.1 {
            assert(white(text[ends.1 - 1]));
        }
    } else {
        if ends.0 < ends.1 {
            assert(white(text[ends.0]));
        }
    }
    assert(text.subrange(ends.0, ends.1) =~= text.subrange(start, end));
}

/// `text` without the whitespace around it.
fn trim_chars(text: &Vec<char>) -> (bare: Vec<char>)
    ensures
        bare@ == trimmed(text@),
{
    let mut start: usize = 0;
    while start < text.len() && is_white(text[start])
        invariant
            start <= text.len(),
            forall|i: int| 0 <= i < start ==> white(#[trigger] text@[i]),
        decreases text.len() - start,
    {
        start = start + 1;
    }
    let mut end: usize = text.len();
    while end > start && is_white(text[end - 1])
        invariant
            start <= end <= text.len(),
            forall|i: int| end <= i < text@.len() ==> white(#[trigger] text@[i]),
        decreases end - start,
    {
        end = end - 1;
    }
    proof {
        lemma_trimmed(text@, start as int, end as int);
    }
    let mut bare: Vec<char> = Vec::new();
    let mut i = start;
    while i < end
        invariant
            start <= i <= end <= text.len(),
            bare@ == text@.subrange(start as int, i as int),
        decreases end - i,
    {
        bare.push(text[i]);
        i = i + 1;
    }
    bare
}

fn unweak_chars(tag: &Vec<char>) -> (bare: Vec<char>)
    ensures
        bare@ == unweak(tag@),
{
    let start: usize = if tag.len() >= 2 && tag[0] == 'W' && tag[1] == '/' {
        2
    } else {
        0
    };
    let mut bare: Vec<char> = Vec::new();
    let mut i = start;
    while i < tag.len()
        invariant
            start <= i <= tag.len(),
            bare@ == tag@.subrange(start as int, i as int),
        decreases tag.len() - i,
    {
        bare.push(tag[i]);
        i = i + 1;
    }
    assert(bare@ =~= unweak(tag@));
    bare
}

/// Whether the tags in an `If-None-Match` name `ours`.
#[verifier::rlimit(50)]
pub fn names_a_tag(tags: &str, ours: &str) -> (named: bool)
    ensures
        named == names_tag(tags@, ours@),
{
    let chars = chars_of(tags);
    let pieces = split_chars(&chars, ',');
    let ours_bare = unweak_chars(&chars_of(ours));
    let star = chars_of("*");
    let mut k: usize = 0;
    while k < pieces.len()
        invariant
            k <= pieces@.len(),
            chars@ == tags@,
            star@ == "*"@,
            ours_bare@ == unweak(ours@),
            pieces@.len() == text::split(chars@, ',').len(),
            forall|j: int| 0 <= j < pieces@.len() ==> #[trigger] pieces@[j]@ == text::split(chars@, ',')[j],
            forall|j: int|
                0 <= j < k ==> !({
                    let tag = trimmed(#[trigger] text::split(chars@, ',')[j]);
                    tag == "*"@ || unweak(tag) == unweak(ours@)
                }),
        decreases pieces@.len() - k,
    {
        let tag = trim_chars(&pieces[k]);
        if text::same_chars(&tag, &star) || text::same_chars(&unweak_chars(&tag), &ours_bare) {
            assert({
                let tag = trimmed(text::split(chars@, ',')[k as int]);
                tag == "*"@ || unweak(tag) == unweak(ours@)
            });
            return true;
        }
        k = k + 1;
    }
    false
}

proof fn lemma_hex_digits(n: nat, count: nat)
    ensures
        hex_digits(n, count).len() == count,
        forall|i: int|
            0 <= i < count ==> {
                let c = #[trigger] hex_digits(n, count)[i];
                (48 <= c as int <= 57) || (97 <= c as int <= 102)
            },
    decreases count,
{
    if count > 0 {
        lemma_hex_digits(n / 16, (count - 1) as nat);
        let d = (n % 16) as int;
        assert(hex_digits(n, count)[count - 1] == hex_lower(d));
        assert forall|i: int| 0 <= i < count implies {
            let c = #[trigger] hex_digits(n, count)[i];
            (48 <= c as int <= 57) || (97 <= c as int <= 102)
        } by {
            if i < count - 1 {
                assert(hex_digits(n, count)[i] == hex_digits(n / 16, (count - 1) as nat)[i]);
            }
        }
    }
}

proof fn lemma_trimmed_already(text: Seq<char>)
    requires
        text.len() > 0,
        !white(text[0]),
        !white(text[text.len() - 1]),
    ensures
        trimmed(text) == text,
{
    assert(trimmed_at(text, 0, text.len() as int));
    lemma_trimmed(text, 0, text.len() as int);
    assert(text.subrange(0, text.len() as int) == text);
}

/// A tag sent back names the version it was made for, with its weak mark or
/// without it: a browser that hands back the tag it was given is told its
/// copy is current.
#[verifier::rlimit(50)]
pub proof fn law_a_tag_sent_back_names_its_version(number: u64)
    ensures
        names_tag(tag_text(number), tag_text(number)),
        names_tag(tag_text(number).skip(2), tag_text(number)),
{
    let tag = tag_text(number);
    let digits = hex_digits(number as nat, 16);
    reveal_strlit("W/\"");
    reveal_strlit("\"");
    lemma_hex_digits(number as nat, 16);
    assert(tag == seq!['W', '/', '"'] + digits + seq!['"']);
    assert forall|i: int| 0 <= i < tag.len() implies tag[i] != ',' && tag[i] != '*' by {
        if 3 <= i < 19 {
            assert(tag[i] == digits[i - 3]);
        }
    }
    let bare = tag.skip(2);
    assert(bare == seq!['"'] + digits + seq!['"']);
    assert(!tag.contains(','));
    assert(!bare.contains(',')) by {
        if bare.contains(',') {
            let i = choose|i: int| 0 <= i < bare.len() && bare[i] == ',';
            assert(tag[i + 2] == ',');
        }
    }
    text::lemma_split_without_sep(tag, ',');
    text::lemma_split_without_sep(bare, ',');
    assert(tag[0] == 'W' && tag[tag.len() - 1] == '"');
    assert(bare[0] == '"' && bare[bare.len() - 1] == '"');
    lemma_trimmed_already(tag);
    lemma_trimmed_already(bare);
    assert(unweak(tag) == bare);
    assert(unweak(bare) == bare);
    assert(text::split(tag, ',')[0] == tag);
    assert(text::split(bare, ',')[0] == bare);
}

/// What a request for a file asks, and what is done about it: whether the
/// browser's copy is current, so "not modified" is the answer, and otherwise
/// whether the range it asks for must be dropped, since a part of the file as
/// it is now would not fit a copy of how it was.
#[derive(Clone, Copy, Debug, PartialEq, Eq, Structural)]
pub struct Revalidation {
    pub unchanged: bool,
    pub drop_range: bool,
}

/// A header as it came: absent (`None`), or present, as text where it is
/// text.
pub open spec fn header_view(header: Option<Option<&str>>) -> Option<Option<Seq<char>>> {
    match header {
        Some(Some(value)) => Some(Some(value@)),
        Some(None) => Some(None),
        None => None,
    }
}

pub open spec fn named_by(tag: Seq<char>, header: Option<Seq<char>>) -> bool {
    match header {
        Some(tags) => names_tag(tags, tag),
        None => false,
    }
}

pub open spec fn dated(written_second: u64, header: Option<Seq<char>>) -> bool {
    match header {
        Some(date) => http_date_seconds(date) == Some(written_second),
        None => false,
    }
}

/// Answers "is my copy still current?" for a file at `version`. A browser
/// sends both `If-None-Match` and `If-Modified-Since`, and then the tag
/// decides, as HTTP says it should.
pub fn answer_by_version(
    version: &Version,
    if_none_match: Option<Option<&str>>,
    if_modified_since: Option<Option<&str>>,
    if_range: Option<Option<&str>>,
) -> (answer: Revalidation)
    ensures
        answer.unchanged == match header_view(if_none_match) {
            Some(tags) => named_by(version.tag@, tags),
            None => match header_view(if_modified_since) {
                Some(date) => dated(version.written_second, date),
                None => false,
            },
        },
        answer.drop_range == (!answer.unchanged && match header_view(if_range) {
            Some(date) => !dated(version.written_second, date),
            None => false,
        }),
{
    let unchanged = match if_none_match {
        Some(tags) => version.is_named_in(tags),
        None => match if_modified_since {
            Some(date) => version.was_written_at(date),
            None => false,
        },
    };
    let drop_range = !unchanged && match if_range {
        Some(date) => !version.was_written_at(date),
        None => false,
    };
    Revalidation { unchanged, drop_range }
}

/// The file the file service answers for an address that led to `file`: a
/// folder's own page where the address ends in `/`, nothing for a folder
/// whose address has no slash (it is redirected, not answered), and the file
/// itself otherwise.
pub fn file_for_version(file: &str, is_dir: bool, path: &str) -> (answered: Option<String>)
    ensures
        answered matches Some(a) ==> is_dir && (path@.len() > 0 && path@.last() == '/') && a@
            == crate::guard::joined(file@, crate::serve::INDEX_FILE@) || !is_dir && a@ == file@,
        answered is None <==> is_dir && !(path@.len() > 0 && path@.last() == '/'),
{
    if is_dir {
        let chars = chars_of(path);
        if chars.len() == 0 || chars[chars.len() - 1] != '/' {
            return None;
        }
        Some(crate::guard::join(file, crate::serve::INDEX_FILE))
    } else {
        Some(text::text_of(&chars_of(file)))
    }
}

} // verus!
