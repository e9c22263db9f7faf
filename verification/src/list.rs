//! File lists: a page of a folder's files, shown when the folder has no
//! index.html or the address ends in `?list`.

use crate::calendar::{self, lemma_civil, lemma_date_of_is_the_date, lemma_year_of_era};
use crate::text::{self, chars_of, push_char, push_decimal, push_padded};
use vstd::prelude::*;

verus! {

/// `text` with each character of HTML markup written as a character reference.
pub open spec fn escaped(text: Seq<char>) -> Seq<char>
    decreases text.len(),
{
    if text.len() == 0 {
        Seq::empty()
    } else {
        escaped(text.drop_last()) + escaped_char(text.last())
    }
}

pub open spec fn escaped_char(c: char) -> Seq<char> {
    if c == '&' {
        "&amp;"@
    } else if c == '<' {
        "&lt;"@
    } else if c == '>' {
        "&gt;"@
    } else if c == '"' {
        "&quot;"@
    } else if c == '\'' {
        "&#39;"@
    } else {
        seq![c]
    }
}

/// The characters markup is made of, which escaped text never holds.
pub open spec fn markup(c: char) -> bool {
    c == '<' || c == '>' || c == '"' || c == '\''
}

/// A name on the page stays text: escaped, it holds nothing that could open
/// or close a tag or end a quoted attribute.
pub proof fn law_a_name_on_the_page_stays_text(text: Seq<char>)
    ensures
        forall|i: int| 0 <= i < escaped(text).len() ==> !markup(#[trigger] escaped(text)[i]),
    decreases text.len(),
{
    if text.len() > 0 {
        law_a_name_on_the_page_stays_text(text.drop_last());
        let before = escaped(text.drop_last());
        let added = escaped_char(text.last());
        reveal_strlit("&amp;");
        reveal_strlit("&lt;");
        reveal_strlit("&gt;");
        reveal_strlit("&quot;");
        reveal_strlit("&#39;");
        assert forall|i: int| 0 <= i < added.len() implies !markup(#[trigger] added[i]) by {}
        assert forall|i: int| 0 <= i < escaped(text).len() implies !markup(#[trigger] escaped(text)[i]) by {
            if i < before.len() {
                assert(escaped(text)[i] == before[i]);
            } else {
                assert(escaped(text)[i] == added[i - before.len()]);
            }
        }
    }
}

/// The character reference at the start of `s`, if one of the five that
/// escaping writes is there: its length and the character it stands for.
pub open spec fn reference_at(s: Seq<char>) -> Option<(int, char)> {
    if s.len() >= 5 && s[0] == '&' && s[1] == 'a' && s[2] == 'm' && s[3] == 'p' && s[4] == ';' {
        Some((5, '&'))
    } else if s.len() >= 4 && s[0] == '&' && s[1] == 'l' && s[2] == 't' && s[3] == ';' {
        Some((4, '<'))
    } else if s.len() >= 4 && s[0] == '&' && s[1] == 'g' && s[2] == 't' && s[3] == ';' {
        Some((4, '>'))
    } else if s.len() >= 6 && s[0] == '&' && s[1] == 'q' && s[2] == 'u' && s[3] == 'o' && s[4] == 't' && s[5]
        == ';' {
        Some((6, '"'))
    } else if s.len() >= 5 && s[0] == '&' && s[1] == '#' && s[2] == '3' && s[3] == '9' && s[4] == ';' {
        Some((5, '\''))
    } else {
        None
    }
}

/// What a browser reads from escaped text, left to right: each of the five
/// references stands for its character, and anything else for itself.
pub open spec fn unescaped(s: Seq<char>) -> Seq<char>
    decreases s.len(),
{
    if s.len() == 0 {
        Seq::empty()
    } else {
        match reference_at(s) {
            Some((n, c)) => seq![c] + unescaped(s.skip(n)),
            None => seq![s[0]] + unescaped(s.skip(1)),
        }
    }
}

proof fn lemma_escaped_concat(a: Seq<char>, b: Seq<char>)
    ensures
        escaped(a + b) == escaped(a) + escaped(b),
    decreases b.len(),
{
    if b.len() == 0 {
        assert(a + b == a);
        assert(escaped(a) + escaped(b) == escaped(a));
    } else {
        assert((a + b).drop_last() == a + b.drop_last());
        assert((a + b).last() == b.last());
        lemma_escaped_concat(a, b.drop_last());
        assert(escaped(a) + escaped(b.drop_last()) + escaped_char(b.last()) == escaped(a) + escaped(b));
    }
}

proof fn lemma_escaped_first(text: Seq<char>)
    requires
        text.len() > 0,
    ensures
        escaped(text) == escaped_char(text[0]) + escaped(text.drop_first()),
{
    assert(text == seq![text[0]] + text.drop_first());
    lemma_escaped_concat(seq![text[0]], text.drop_first());
    let one = seq![text[0]];
    assert(one.drop_last() == Seq::<char>::empty());
    assert(one.last() == text[0]);
    assert(escaped(one) == escaped(one.drop_last()) + escaped_char(one.last()));
    assert(Seq::<char>::empty() + escaped_char(text[0]) == escaped_char(text[0]));
}

/// Escaping loses nothing: a browser reads back the text that was escaped.
pub proof fn law_escaping_is_read_back_as_the_text(text: Seq<char>)
    ensures
        unescaped(escaped(text)) == text,
    decreases text.len(),
{
    reveal_strlit("&amp;");
    reveal_strlit("&lt;");
    reveal_strlit("&gt;");
    reveal_strlit("&quot;");
    reveal_strlit("&#39;");
    if text.len() > 0 {
        let rest = text.drop_first();
        let c = text[0];
        lemma_escaped_first(text);
        law_escaping_is_read_back_as_the_text(rest);
        let s = escaped(text);
        let e = escaped_char(c);
        assert(s == e + escaped(rest));
        assert(s.skip(e.len() as int) == escaped(rest));
        assert(s.len() > 0);
        if c == '&' || c == '<' || c == '>' || c == '"' || c == '\'' {
            assert(reference_at(s) == Some((e.len() as int, c)));
        } else {
            assert(e == seq![c]);
            assert(s[0] == c);
            assert(reference_at(s) is None);
        }
        assert(unescaped(s) == seq![c] + rest);
        assert(seq![c] + rest == text);
    } else {
        assert(escaped(text) == Seq::<char>::empty());
    }
}

/// In escaped text every `&` begins one of the five references.
pub proof fn law_every_ampersand_begins_a_reference(text: Seq<char>)
    ensures
        forall|i: int|
            0 <= i < escaped(text).len() && escaped(text)[i] == '&' ==> #[trigger] reference_at(
                escaped(text).skip(i),
            ) is Some,
    decreases text.len(),
{
    reveal_strlit("&amp;");
    reveal_strlit("&lt;");
    reveal_strlit("&gt;");
    reveal_strlit("&quot;");
    reveal_strlit("&#39;");
    if text.len() > 0 {
        law_every_ampersand_begins_a_reference(text.drop_last());
        let before = escaped(text.drop_last());
        let added = escaped_char(text.last());
        let s = escaped(text);
        assert(s == before + added);
        assert forall|i: int| 0 <= i < s.len() && s[i] == '&' implies #[trigger] reference_at(s.skip(i)) is Some by {
            if i < before.len() {
                assert(s[i] == before[i]);
                assert(reference_at(before.skip(i)) is Some);
                assert(s.skip(i) == before.skip(i) + added);
                let x = before.skip(i);
                assert(forall|k: int| 0 <= k < x.len() ==> s.skip(i)[k] == x[k]);
            } else {
                assert(s[i] == added[i - before.len()]);
                assert(i == before.len());
                assert(s.skip(i) == added);
            }
        }
    }
}

/// Text with nothing to escape is left as it is.
pub proof fn law_plain_text_is_left_alone(text: Seq<char>)
    requires
        forall|i: int| 0 <= i < text.len() ==> #[trigger] text[i] != '&' && !markup(text[i]),
    ensures
        escaped(text) == text,
    decreases text.len(),
{
    if text.len() > 0 {
        let rest = text.drop_last();
        assert forall|i: int| 0 <= i < rest.len() implies #[trigger] rest[i] != '&' && !markup(rest[i]) by {
            assert(rest[i] == text[i]);
        }
        law_plain_text_is_left_alone(rest);
        assert(text.last() == text[text.len() - 1]);
        assert(escaped_char(text.last()) == seq![text.last()]);
        assert(rest + seq![text.last()] == text);
    }
}

/// Escapes text for HTML, including inside quoted attributes.
pub fn escape(text: &str) -> (escaped_text: String)
    ensures
        escaped_text@ == escaped(text@),
{
    let chars = chars_of(text);
    let mut out = String::new();
    let mut i: usize = 0;
    while i < chars.len()
        invariant
            i <= chars.len(),
            chars@ == text@,
            out@ == escaped(chars@.take(i as int)),
        decreases chars.len() - i,
    {
        let c = chars[i];
        if c == '&' {
            out.append("&amp;");
        } else if c == '<' {
            out.append("&lt;");
        } else if c == '>' {
            out.append("&gt;");
        } else if c == '"' {
            out.append("&quot;");
        } else if c == '\'' {
            out.append("&#39;");
        } else {
            push_char(&mut out, c);
        }
        assert(chars@.take(i + 1).drop_last() == chars@.take(i as int));
        i = i + 1;
    }
    assert(chars@.take(chars.len() as int) == chars@);
    out
}

/// A date as `2026-09-14`.
pub open spec fn date_text(year: int, month: int, day: int) -> Seq<char> {
    text::padded(year, 4) + seq!['-'] + text::padded(month, 2) + seq!['-'] + text::padded(day, 2)
}

/// The date a count of days since 1970 falls on, as `2026-09-14`.
pub open spec fn day_text(days: int) -> Seq<char> {
    date_text(calendar::date_of(days).0, calendar::date_of(days).1, calendar::date_of(days).2)
}

/// A time of day, given in minutes since midnight, as `14:51`.
pub open spec fn minute_text(minutes: int) -> Seq<char> {
    text::padded(minutes / 60, 2) + seq![':'] + text::padded(minutes % 60, 2)
}

/// Turns seconds since 1970 into a UTC date and time of day, like
/// `("2026-09-14", "14:51")`: the date is the one whose day holds the second,
/// and the time is the minute of that day.
#[verifier::rlimit(50)]
pub fn utc_minute(seconds: i64) -> (written: (String, String))
    ensures
        written.0@ == day_text(seconds as int / 86_400),
        written.1@ == minute_text((seconds as int % 86_400) / 60),
{
    let days: i64 = match seconds.checked_div_euclid(86_400) {
        Some(days) => days,
        None => 0,
    };
    let in_day: i64 = match seconds.checked_rem_euclid(86_400) {
        Some(rest) => rest,
        None => 0,
    };
    let minutes: i64 = in_day / 60;

    let from_march: i64 = days + 719_468;
    let era: i64 = match from_march.checked_div_euclid(146_097) {
        Some(era) => era,
        None => 0,
    };
    let day_of_era: i64 = match from_march.checked_rem_euclid(146_097) {
        Some(rest) => rest,
        None => 0,
    };
    proof {
        lemma_year_of_era(day_of_era as int);
    }
    let year_of_era: i64 =
        (day_of_era - day_of_era / 1_460 + day_of_era / 36_524 - day_of_era / 146_096) / 365;
    let day_of_year: i64 = day_of_era - (365 * year_of_era + year_of_era / 4 - year_of_era / 100);
    let month_from_march: i64 = (5 * day_of_year + 2) / 153;

    let day: i64 = day_of_year - (153 * month_from_march + 2) / 5 + 1;
    let month: i64 = if month_from_march < 10 {
        month_from_march + 3
    } else {
        month_from_march - 9
    };
    let year: i64 = year_of_era + era * 400 + if month <= 2 { 1i64 } else { 0 };
    proof {
        lemma_civil(
            days as int,
            era as int,
            day_of_era as int,
            year_of_era as int,
            day_of_year as int,
            month_from_march as int,
            day as int,
            month as int,
            year as int,
        );
        lemma_date_of_is_the_date(days as int, year as int, month as int, day as int);
    }

    let mut date = String::new();
    push_padded(&mut date, year, 4);
    push_char(&mut date, '-');
    push_padded(&mut date, month, 2);
    push_char(&mut date, '-');
    push_padded(&mut date, day, 2);

    let mut minute = String::new();
    push_padded(&mut minute, minutes / 60, 2);
    push_char(&mut minute, ':');
    push_padded(&mut minute, minutes % 60, 2);

    assert(date@ =~= date_text(year as int, month as int, day as int));
    assert(days as int == seconds as int / 86_400);
    assert(minute@ =~= minute_text((seconds as int % 86_400) / 60));
    (date, minute)
}

} // verus!

verus! {

/// How far a moment lies from the start of 1970, as the system gives it: a
/// whole number of seconds and the nanoseconds past them, after that start or
/// before it.
#[derive(Clone, Copy, Debug, PartialEq, Eq, Structural)]
pub enum SinceEpoch {
    After { seconds: u64, nanos: u32 },
    Before { seconds: u64, nanos: u32 },
}

/// The moment in nanoseconds from the start of 1970, negative before it.
pub open spec fn signed_nanos(since: SinceEpoch) -> int {
    match since {
        SinceEpoch::After { seconds, nanos } => seconds * 1_000_000_000 + nanos,
        SinceEpoch::Before { seconds, nanos } => -(seconds * 1_000_000_000 + nanos),
    }
}

pub open spec fn whole_seconds(since: SinceEpoch) -> u64 {
    match since {
        SinceEpoch::After { seconds, .. } => seconds,
        SinceEpoch::Before { seconds, .. } => seconds,
    }
}

pub open spec fn nanos_below_a_second(since: SinceEpoch) -> bool {
    match since {
        SinceEpoch::After { nanos, .. } => nanos < 1_000_000_000,
        SinceEpoch::Before { nanos, .. } => nanos < 1_000_000_000,
    }
}

/// The count `seconds_since_1970` gives: whole seconds after the start of
/// 1970, and before it one more than the whole seconds when any part of a
/// second is left over, stopping at what an `i64` holds.
pub open spec fn second_of(since: SinceEpoch) -> int {
    match since {
        SinceEpoch::After { seconds, .. } => if seconds <= i64::MAX { seconds as int } else { i64::MAX as int },
        SinceEpoch::Before { seconds, nanos } => {
            let whole = if seconds <= i64::MAX { seconds as int } else { i64::MAX as int };
            -whole - if nanos > 0 { 1int } else { 0 }
        },
    }
}

/// The second a moment falls in, counted from the start of 1970: before 1970
/// it rounds down, so half a second before counts as -1. Past what an `i64`
/// holds, the count stops at its largest.
pub fn seconds_since_1970(since: SinceEpoch) -> (seconds: i64)
    ensures
        seconds == second_of(since),
        whole_seconds(since) <= i64::MAX && nanos_below_a_second(since) ==> seconds * 1_000_000_000
            <= signed_nanos(since) < (seconds + 1) * 1_000_000_000,
        whole_seconds(since) > i64::MAX ==> seconds == match since {
            SinceEpoch::After { .. } => i64::MAX as int,
            SinceEpoch::Before { nanos, .. } => if nanos > 0 { i64::MIN as int } else { -(i64::MAX as int) },
        },
{
    match since {
        SinceEpoch::After { seconds, .. } => {
            if seconds <= i64::MAX as u64 {
                seconds as i64
            } else {
                i64::MAX
            }
        },
        SinceEpoch::Before { seconds, nanos } => {
            let whole: i64 = if seconds <= i64::MAX as u64 {
                seconds as i64
            } else {
                i64::MAX
            };
            -whole - if nanos > 0 { 1i64 } else { 0 }
        },
    }
}

/// A `<time>` tag for a moment, in UTC to the minute.
pub open spec fn written_text(seconds: int) -> Seq<char> {
    let date = day_text(seconds / 86_400);
    let minute = minute_text((seconds % 86_400) / 60);
    "<time datetime=\""@ + date + seq!['T'] + minute + "Z\">"@ + date + seq![' '] + minute + " UTC</time>"@
}

/// A `<time>` tag for when a file last changed, in UTC to the minute.
#[verifier::rlimit(50)]
pub fn written_at(since: SinceEpoch) -> (tag: String)
    ensures
        tag@ == written_text(second_of(since)),
{
    let seconds = seconds_since_1970(since);
    let (date, minute) = utc_minute(seconds);
    let mut tag = String::new();
    tag.append("<time datetime=\"");
    tag.append(date.as_str());
    push_char(&mut tag, 'T');
    tag.append(minute.as_str());
    tag.append("Z\">");
    tag.append(date.as_str());
    push_char(&mut tag, ' ');
    tag.append(minute.as_str());
    tag.append(" UTC</time>");
    assert(tag@ =~= written_text(seconds as int));
    tag
}

} // verus!

verus! {

/// Two to the power `k`.
pub open spec fn two_to(k: nat) -> nat
    decreases k,
{
    if k == 0 {
        1
    } else {
        2 * two_to((k - 1) as nat)
    }
}

/// `n / d`, rounded to the nearest whole number, and to the even one of two
/// equally near.
pub open spec fn divided_to_nearest(n: nat, d: nat) -> nat
    recommends
        d > 0,
{
    let q = n / d;
    let r = n % d;
    if 2 * r > d || (2 * r == d && q % 2 == 1) {
        q + 1
    } else {
        q
    }
}

/// How many of its lowest bits a number loses on becoming an `f64`: as many as
/// leave 53, the bits an `f64` keeps.
pub open spec fn bits_dropped(n: nat, from: nat) -> nat
    decreases 64 - from,
{
    if from >= 64 || n / two_to(from) < two_to(53) {
        from
    } else {
        bits_dropped(n, from + 1)
    }
}

/// The value `n as f64` holds: `n` rounded to 53 significant bits, to the
/// nearest and to even between two.
pub open spec fn as_double(n: nat) -> nat {
    let dropped = bits_dropped(n, 0);
    divided_to_nearest(n, two_to(dropped)) * two_to(dropped)
}

/// The numerator of `1023.95` as an `f64` holds it, over two to the 42.
pub open spec fn switch_numerator() -> nat {
    4503379725044941
}

/// 1024 to the power `k`.
pub open spec fn kibi(k: nat) -> nat
    decreases k,
{
    if k == 0 {
        1
    } else {
        1024 * kibi((k - 1) as nat)
    }
}

/// Which unit a size of `double` bytes is written in, starting from `unit`:
/// the next one up while the size in this one, `double / 1024^(unit + 1)`, is
/// at least `1023.95`, up to TB.
pub open spec fn unit_for(double: nat, unit: nat) -> nat
    decreases 3 - unit,
{
    if unit < 3 && double * two_to(42) >= switch_numerator() * kibi(unit + 1) {
        unit_for(double, unit + 1)
    } else {
        unit
    }
}

pub open spec fn unit_name(unit: nat) -> Seq<char> {
    if unit == 0 {
        "KB"@
    } else if unit == 1 {
        "MB"@
    } else if unit == 2 {
        "GB"@
    } else {
        "TB"@
    }
}

/// A size as a person would say it: bytes below 1024, and above that the size
/// in the largest unit it reaches `1023.95` of, to one decimal, as the
/// program's `f64` arithmetic gives it.
pub open spec fn readable(bytes: nat) -> Seq<char> {
    if bytes < 1024 {
        text::decimal(bytes) + " B"@
    } else {
        let double = as_double(bytes);
        let unit = unit_for(double, 0);
        let tenths = divided_to_nearest(10 * double, kibi(unit + 1));
        text::decimal(tenths / 10) + seq!['.', text::digit((tenths % 10) as int), ' '] + unit_name(unit)
    }
}

proof fn lemma_two_to_grows(a: nat, b: nat)
    requires
        a <= b,
    ensures
        two_to(a) <= two_to(b),
        two_to(a) >= 1,
    decreases b - a,
{
    if a < b {
        lemma_two_to_grows(a, (b - 1) as nat);
    } else {
        lemma_two_to_at_least_one(a);
    }
}

proof fn lemma_two_to_at_least_one(a: nat)
    ensures
        two_to(a) >= 1,
    decreases a,
{
    if a > 0 {
        lemma_two_to_at_least_one((a - 1) as nat);
    }
}

/// `n as f64`, exactly, for any `u64`.
#[verifier::rlimit(100)]
#[verifier::spinoff_prover]
fn as_double_exactly(n: u64) -> (double: u128)
    ensures
        double == as_double(n as nat),
        double <= 0x1_0000_0000_0000_0000u128,
{
    assert(two_to(53) == 0x20_0000_0000_0000nat) by {
        reveal_with_fuel(two_to, 54);
    }
    assert(two_to(12) == 4096nat) by {
        reveal_with_fuel(two_to, 13);
    }
    let wide = n as u128;
    let mut dropped: u128 = 0;
    let mut scale: u128 = 1;
    while dropped < 64 && wide / scale >= 0x20_0000_0000_0000
        invariant
            dropped <= 64,
            scale == two_to(dropped as nat),
            scale >= 1,
            wide == n,
            wide < 0x1_0000_0000_0000_0000u128,
            dropped > 0 ==> wide >= 0x10_0000_0000_0000 * scale,
            bits_dropped(n as nat, dropped as nat) == bits_dropped(n as nat, 0),
            two_to(53) == 0x20_0000_0000_0000nat,
            two_to(12) == 4096nat,
        decreases 64 - dropped,
    {
        assert(wide >= 0x20_0000_0000_0000 * scale) by (nonlinear_arith)
            requires
                wide / scale >= 0x20_0000_0000_0000,
                scale >= 1,
        {
            assert(scale * (wide / scale) <= wide) by (nonlinear_arith)
                requires scale >= 1;
        }
        dropped = dropped + 1;
        scale = scale * 2;
    }
    if dropped >= 12 {
        proof {
            lemma_two_to_grows(12, dropped as nat);
        }
        assert(false);
    }
    let whole = wide / scale;
    let rest = wide % scale;
    assert(whole < 0x20_0000_0000_0000);
    let nearest = if 2 * rest > scale || (2 * rest == scale && whole % 2 == 1) {
        whole + 1
    } else {
        whole
    };
    if dropped > 0 {
        proof {
            lemma_two_to_grows(dropped as nat, 11);
            assert(two_to(11) == 2048nat) by {
                reveal_with_fuel(two_to, 12);
            }
        }
    }
    assert(scale <= 2048);
    assert(nearest * scale <= 0x1_0000_0000_0000_0000u128) by (nonlinear_arith)
        requires
            nearest <= 0x20_0000_0000_0000,
            scale <= 2048,
    ;
    nearest * scale
}

} // verus!

verus! {

/// Formats a size like `512 B`, `1.5 KB` or `3.4 MB`.
#[verifier::rlimit(100)]
pub fn readable_size(bytes: u64) -> (size: String)
    ensures
        size@ == readable(bytes as nat),
{
    let mut size = String::new();
    if bytes < 1024 {
        push_decimal(&mut size, bytes);
        size.append(" B");
        return size;
    }
    let double = as_double_exactly(bytes);
    assert(two_to(42) == 0x400_0000_0000nat) by {
        reveal_with_fuel(two_to, 43);
    }
    let mut unit: usize = 0;
    let mut scale: u128 = 1024;
    assert(kibi(1) == 1024) by {
        reveal_with_fuel(kibi, 2);
    }
    while unit < 3 && double * 0x400_0000_0000 >= 4503379725044941 * scale
        invariant
            unit <= 3,
            scale == kibi((unit + 1) as nat),
            scale <= 0x100_0000_0000u128,
            double <= 0x1_0000_0000_0000_0000u128,
            unit_for(double as nat, unit as nat) == unit_for(double as nat, 0),
            two_to(42) == 0x400_0000_0000nat,
            kibi(1) == 1024,
        decreases 3 - unit,
    {
        assert(kibi((unit + 2) as nat) == 1024 * kibi((unit + 1) as nat));
        assert(kibi((unit + 2) as nat) <= 0x100_0000_0000nat) by {
            reveal_with_fuel(kibi, 5);
        }
        unit = unit + 1;
        scale = scale * 1024;
    }
    assert(scale >= 1024 && scale <= 0x1_0000_0000_0000u128) by {
        reveal_with_fuel(kibi, 5);
    }
    let spread = 10 * double;
    let whole = spread / scale;
    let rest = spread % scale;
    let tenths: u128 = if 2 * rest > scale || (2 * rest == scale && whole % 2 == 1) {
        whole + 1
    } else {
        whole
    };
    proof {
        vstd::arithmetic::div_mod::lemma_div_is_ordered_by_denominator(spread as int, 1024, scale as int);
    }
    assert(tenths <= 0x1000_0000_0000_0000u128);
    push_decimal(&mut size, (tenths / 10) as u64);
    push_char(&mut size, '.');
    push_char(&mut size, text::digit_char((tenths % 10) as u64));
    push_char(&mut size, ' ');
    if unit == 0 {
        size.append("KB");
    } else if unit == 1 {
        size.append("MB");
    } else if unit == 2 {
        size.append("GB");
    } else {
        size.append("TB");
    }
    size
}

} // verus!

verus! {

/// A path with `names` added below `base`, one after another.
pub open spec fn walked(base: Seq<char>, names: Seq<Seq<char>>) -> Seq<char>
    decreases names.len(),
{
    if names.len() == 0 {
        base
    } else {
        crate::guard::joined(walked(base, names.drop_last()), names.last())
    }
}

/// Whether any piece of a path is `..`.
pub open spec fn climbs(pieces: Seq<Seq<char>>) -> bool {
    exists|k: int| 0 <= k < pieces.len() && #[trigger] pieces[k] == ".."@
}

/// Where a decoded address leads below `root`, read as `Path::components`
/// reads it: nowhere (`None`) if it starts at the root or climbs with `..`,
/// and otherwise through each name in it.
pub open spec fn below(root: Seq<char>, decoded: Seq<char>) -> Option<Seq<char>> {
    if crate::guard::from_the_root(decoded) || climbs(text::split(decoded, '/')) {
        None
    } else {
        Some(walked(root, crate::guard::components(decoded)))
    }
}

/// The folder an address points to, worked out the same way the file service
/// does: the address without the slashes it starts with, decoded, each name
/// in it added below `root`. `None` if the address could lead out of the
/// served folder, or is not UTF-8 once decoded.
pub open spec fn folder_for(root: Seq<char>, address: Seq<char>) -> Option<Seq<char>> {
    let trimmed = crate::guard::without_leading(address, '/');
    let bytes = crate::percent::decoded_bytes(trimmed);
    if vstd::utf8::valid_utf8(bytes) {
        below(root, vstd::utf8::decode_utf8(bytes))
    } else {
        None
    }
}

/// What a name added below the served folder is: not empty, not `..`, and
/// without a `/`.
pub open spec fn plain_name(name: Seq<char>) -> bool {
    name.len() > 0 && name != ".."@ && !name.contains('/')
}

proof fn lemma_named_plain(pieces: Seq<Seq<char>>)
    requires
        forall|k: int| 0 <= k < pieces.len() ==> !(#[trigger] pieces[k]).contains('/') && pieces[k] != ".."@,
    ensures
        forall|j: int| 0 <= j < crate::guard::named(pieces).len() ==> plain_name(#[trigger] crate::guard::named(pieces)[j]),
    decreases pieces.len(),
{
    if pieces.len() > 0 {
        lemma_named_plain(pieces.drop_last());
        let before = crate::guard::named(pieces.drop_last());
        assert forall|j: int| 0 <= j < crate::guard::named(pieces).len() implies plain_name(#[trigger] crate::guard::named(pieces)[j]) by {
            if j < before.len() {
                assert(crate::guard::named(pieces)[j] == before[j]);
            } else {
                assert(crate::guard::named(pieces)[j] == pieces.last());
            }
        }
    }
}

proof fn lemma_walked_below(root: Seq<char>, names: Seq<Seq<char>>)
    requires
        forall|j: int| 0 <= j < names.len() ==> plain_name(#[trigger] names[j]),
    ensures
        root.len() <= walked(root, names).len(),
        walked(root, names).take(root.len() as int) == root,
    decreases names.len(),
{
    if names.len() > 0 {
        lemma_walked_below(root, names.drop_last());
        let base = walked(root, names.drop_last());
        let name = names.last();
        assert(plain_name(names[names.len() - 1]));
        assert(name[0] != '/') by {
            if name[0] == '/' {
                assert(name.contains('/'));
            }
        }
        let whole = walked(root, names);
        if base.len() == 0 || base.last() == '/' {
            assert(whole == base + name);
        } else {
            assert(whole == base.push('/') + name);
        }
        assert(whole.take(root.len() as int) == base.take(root.len() as int));
    }
}

/// An address names a folder only inside the served one: the served folder
/// with plain names added below it, none of them `..`; so it starts with the
/// served folder's own path.
pub proof fn law_a_folder_lies_inside_the_served_one(root: Seq<char>, address: Seq<char>)
    ensures
        folder_for(root, address) matches Some(folder) ==> exists|names: Seq<Seq<char>>|
            folder == walked(root, names) && forall|j: int| 0 <= j < names.len() ==> plain_name(#[trigger] names[j]),
        folder_for(root, address) matches Some(folder) ==> root.len() <= folder.len()
            && folder.take(root.len() as int) == root,
{
    let trimmed = crate::guard::without_leading(address, '/');
    let bytes = crate::percent::decoded_bytes(trimmed);
    if vstd::utf8::valid_utf8(bytes) {
        let decoded = vstd::utf8::decode_utf8(bytes);
        if !(crate::guard::from_the_root(decoded) || climbs(text::split(decoded, '/'))) {
            let pieces = text::split(decoded, '/');
            text::lemma_split_pieces_lack_sep(decoded, '/');
            assert forall|k: int| 0 <= k < pieces.len() implies !(#[trigger] pieces[k]).contains('/') && pieces[k] != ".."@ by {
                if pieces[k] == ".."@ {
                    assert(climbs(pieces));
                }
            }
            lemma_named_plain(pieces);
            let names = crate::guard::components(decoded);
            lemma_walked_below(root, names);
        }
    }
}

#[verifier::rlimit(50)]
fn walk_below(root: &str, decoded: &str) -> (folder: Option<String>)
    ensures
        folder matches Some(f) ==> below(root@, decoded@) == Some(f@),
        folder is None ==> below(root@, decoded@) is None,
{
    let chars = chars_of(decoded);
    if chars.len() > 0 && chars[0] == '/' {
        return None;
    }
    let pieces = text::split_chars(&chars, '/');
    let dots = chars_of("..");
    let dot = chars_of(".");
    proof {
        reveal_strlit("..");
        reveal_strlit(".");
    }
    let ghost all = text::split(chars@, '/');
    let mut folder = text::text_of(&chars_of(root));
    let mut k: usize = 0;
    while k < pieces.len()
        invariant
            k <= pieces@.len(),
            all == text::split(chars@, '/'),
            chars@ == decoded@,
            pieces@.len() == all.len(),
            forall|j: int| 0 <= j < pieces@.len() ==> #[trigger] pieces@[j]@ == all[j],
            forall|j: int| 0 <= j < k ==> #[trigger] all[j] != ".."@,
            dots@ == ".."@,
            dot@ == "."@,
            folder@ == walked(root@, crate::guard::named(all.take(k as int))),
        decreases pieces@.len() - k,
    {
        let piece = &pieces[k];
        assert(all.take(k + 1).drop_last() == all.take(k as int));
        assert(all.take(k + 1).last() == all[k as int]);
        if text::same_chars(piece, &dots) {
            assert(climbs(all));
            return None;
        }
        if piece.len() != 0 && !text::same_chars(piece, &dot) {
            let name = text::text_of(piece);
            let ghost before = crate::guard::named(all.take(k as int));
            assert(crate::guard::named(all.take(k + 1)) == before.push(all[k as int]));
            assert(before.push(all[k as int]).drop_last() == before);
            folder = crate::guard::join(folder.as_str(), name.as_str());
        }
        k = k + 1;
    }
    assert(all.take(pieces@.len() as int) == all);
    assert(!climbs(all));
    Some(folder)
}

/// The folder an address points to, worked out the same way the file service
/// does. `None` if the address could lead out of the served folder.
pub fn folder_at(root: &str, address: &str) -> (folder: Option<String>)
    ensures
        folder matches Some(f) ==> folder_for(root@, address@) == Some(f@),
        folder is None ==> folder_for(root@, address@) is None,
{
    let trimmed = crate::guard::trim_leading(address, '/');
    match crate::percent::decode_strictly(trimmed.as_str()) {
        Some(decoded) => walk_below(root, decoded.as_str()),
        None => None,
    }
}

} // verus!

