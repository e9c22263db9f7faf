//! Text handling shared by the rest of the library: characters in and out,
//! and numbers written in decimal.

use vstd::prelude::*;
use vstd::std_specs::iter::IteratorSpec;

verus! {

/// The characters of `text`, one by one.
pub(crate) fn chars_of(text: &str) -> (chars: Vec<char>)
    ensures
        chars@ == text@,
{
    broadcast use vstd::string::axiom_spec_iter, vstd::string::next_postcondition;

    let mut iter = text.chars();
    let mut chars: Vec<char> = Vec::new();
    loop
        invariant
            chars@ + IteratorSpec::remaining(&iter) == text@,
            IteratorSpec::decrease(&iter) is Some,
        ensures
            chars@ == text@,
        decreases IteratorSpec::decrease(&iter)->0,
    {
        let ghost before = IteratorSpec::remaining(&iter);
        match iter.next() {
            Some(c) => {
                assert(chars@.push(c) + before.drop_first() =~= chars@ + before);
                chars.push(c);
            },
            None => {
                assert(chars@ + before =~= chars@);
                break;
            },
        }
    }
    chars
}

/// Adds one character to the end of `text`: `String::push`, which std
/// documents as appending the `char`; the claim is that the text's view gains
/// it at the end.
#[verifier::external_body]
pub(crate) fn push_char(text: &mut String, c: char)
    ensures
        final(text)@ == old(text)@.push(c),
{
    text.push(c)
}

/// The character for a decimal digit.
pub open spec fn digit(d: int) -> char
    recommends
        0 <= d < 10,
{
    (d + 48) as char
}

/// A number in decimal, with no sign and no leading zeros.
pub open spec fn decimal(n: nat) -> Seq<char>
    decreases n,
{
    if n < 10 {
        seq![digit(n as int)]
    } else {
        decimal(n / 10).push(digit((n % 10) as int))
    }
}

/// `count` zeros.
pub open spec fn zeros(count: int) -> Seq<char> {
    Seq::new(if count > 0 { count as nat } else { 0 }, |i: int| '0')
}

/// A number as `{:0width$}` writes it: the sign, if any, then zeros to make up
/// the width, then the digits.
pub open spec fn padded(n: int, width: int) -> Seq<char> {
    if n >= 0 {
        zeros(width - decimal(n as nat).len()) + decimal(n as nat)
    } else {
        seq!['-'] + zeros(width - 1 - decimal((-n) as nat).len()) + decimal((-n) as nat)
    }
}

pub fn digit_char(d: u64) -> (c: char)
    requires
        d < 10,
    ensures
        c == digit(d as int),
{
    ((d as u8) + 48u8) as char
}

/// Ten to the power `k`.
pub open spec fn ten_to(k: nat) -> nat
    decreases k,
{
    if k == 0 {
        1
    } else {
        10 * ten_to((k - 1) as nat)
    }
}

/// A number below ten to the `k` has at most `k` digits.
pub proof fn lemma_decimal_length(n: nat, k: nat)
    requires
        1 <= k,
        n < ten_to(k),
    ensures
        decimal(n).len() <= k,
    decreases k,
{
    if n >= 10 {
        assert(k >= 2) by {
            if k == 1 {
                assert(ten_to(1) == 10) by {
                    reveal_with_fuel(ten_to, 2);
                }
            }
        }
        assert(n / 10 < ten_to((k - 1) as nat));
        lemma_decimal_length(n / 10, (k - 1) as nat);
    }
}

/// How many digits `decimal(n)` has.
pub fn digit_count(n: u64) -> (count: usize)
    ensures
        count == decimal(n as nat).len(),
        1 <= count <= 20,
    decreases n,
{
    proof {
        assert(ten_to(20) == 100000000000000000000nat) by {
            reveal_with_fuel(ten_to, 21);
        }
        lemma_decimal_length(n as nat, 20);
    }
    if n < 10 {
        1
    } else {
        let rest = digit_count(n / 10);
        rest + 1
    }
}

/// Writes `n` in decimal at the end of `out`.
pub fn push_decimal(out: &mut String, n: u64)
    ensures
        final(out)@ == old(out)@ + decimal(n as nat),
    decreases n,
{
    if n >= 10 {
        push_decimal(out, n / 10);
    }
    push_char(out, digit_char(n % 10));
    assert(n < 10 ==> decimal(n as nat) == seq![digit(n as int)]);
}

/// Writes `count` zeros at the end of `out`.
pub fn push_zeros(out: &mut String, count: usize)
    ensures
        final(out)@ == old(out)@ + zeros(count as int),
{
    let ghost start = out@;
    let mut i: usize = 0;
    while i < count
        invariant
            i <= count,
            out@ == start + zeros(i as int),
        decreases count - i,
    {
        push_char(out, '0');
        i = i + 1;
        assert(out@ =~= start + zeros(i as int));
    }
}

/// Writes `n` as `{:0width$}` does at the end of `out`.
pub fn push_padded(out: &mut String, n: i64, width: usize)
    ensures
        final(out)@ == old(out)@ + padded(n as int, width as int),
{
    let ghost start = out@;
    if n >= 0 {
        let size = digit_count(n as u64);
        if size < width {
            push_zeros(out, width - size);
        } else {
            push_zeros(out, 0);
        }
        push_decimal(out, n as u64);
        assert(out@ =~= start + padded(n as int, width as int));
    } else {
        let magnitude: u64 = ((-(n + 1)) as u64) + 1;
        push_char(out, '-');
        let size = digit_count(magnitude);
        if size + 1 < width {
            push_zeros(out, width - 1 - size);
        } else {
            push_zeros(out, 0);
        }
        push_decimal(out, magnitude);
        assert(out@ =~= start + padded(n as int, width as int));
    }
}

} // verus!

verus! {

/// The text of `chars`.
pub(crate) fn text_of(chars: &Vec<char>) -> (text: String)
    ensures
        text@ == chars@,
{
    let mut text = String::new();
    let mut i: usize = 0;
    while i < chars.len()
        invariant
            i <= chars@.len(),
            text@ == chars@.take(i as int),
        decreases chars@.len() - i,
    {
        push_char(&mut text, chars[i]);
        assert(chars@.take(i + 1) == chars@.take(i as int).push(chars@[i as int]));
        i = i + 1;
    }
    assert(chars@.take(chars@.len() as int) == chars@);
    text
}

/// The pieces of `text` between each `sep`, as `str::split` gives them: one
/// more than there are separators, the empty ones included.
pub open spec fn split(text: Seq<char>, sep: char) -> Seq<Seq<char>>
    decreases text.len(),
{
    if text.len() == 0 {
        seq![Seq::empty()]
    } else {
        let before = split(text.drop_last(), sep);
        if text.last() == sep {
            before.push(Seq::empty())
        } else {
            before.update(before.len() - 1, before.last().push(text.last()))
        }
    }
}

pub proof fn lemma_split_not_empty(text: Seq<char>, sep: char)
    ensures
        split(text, sep).len() >= 1,
    decreases text.len(),
{
    if text.len() > 0 {
        lemma_split_not_empty(text.drop_last(), sep);
    }
}

/// No piece of a split holds the separator.
pub proof fn lemma_split_pieces_lack_sep(text: Seq<char>, sep: char)
    ensures
        forall|k: int| 0 <= k < split(text, sep).len() ==> !(#[trigger] split(text, sep)[k]).contains(sep),
    decreases text.len(),
{
    if text.len() > 0 {
        lemma_split_not_empty(text.drop_last(), sep);
        lemma_split_pieces_lack_sep(text.drop_last(), sep);
        let before = split(text.drop_last(), sep);
        if text.last() != sep {
            let last = before.last().push(text.last());
            assert(!before.last().contains(sep));
            assert forall|i: int| 0 <= i < last.len() implies last[i] != sep by {
                if i < before.last().len() {
                    assert(last[i] == before.last()[i]);
                }
            }
            assert forall|k: int| 0 <= k < split(text, sep).len() implies !(#[trigger] split(text, sep)[k]).contains(sep) by {
                if k < before.len() - 1 {
                    assert(split(text, sep)[k] == before[k]);
                } else {
                    assert(split(text, sep)[k] == last);
                }
            }
        } else {
            assert forall|k: int| 0 <= k < split(text, sep).len() implies !(#[trigger] split(text, sep)[k]).contains(sep) by {
                if k < before.len() {
                    assert(split(text, sep)[k] == before[k]);
                } else {
                    assert(split(text, sep)[k] == Seq::<char>::empty());
                }
            }
        }
    }
}

/// A text without the separator is one piece.
pub proof fn lemma_split_without_sep(text: Seq<char>, sep: char)
    requires
        !text.contains(sep),
    ensures
        split(text, sep) == seq![text],
    decreases text.len(),
{
    if text.len() > 0 {
        assert(!text.drop_last().contains(sep)) by {
            if text.drop_last().contains(sep) {
                let i = choose|i: int| 0 <= i < text.drop_last().len() && text.drop_last()[i] == sep;
                assert(text[i] == sep);
            }
        }
        lemma_split_without_sep(text.drop_last(), sep);
        assert(text.last() != sep) by {
            assert(text[text.len() - 1] == text.last());
        }
        assert(text.drop_last().push(text.last()) == text);
    } else {
        assert(text == Seq::<char>::empty());
    }
}

/// Splits `text` at each `sep`.
pub fn split_chars(text: &Vec<char>, sep: char) -> (pieces: Vec<Vec<char>>)
    ensures
        pieces@.len() == split(text@, sep).len(),
        forall|k: int| 0 <= k < pieces@.len() ==> #[trigger] pieces@[k]@ == split(text@, sep)[k],
{
    let mut done: Vec<Vec<char>> = Vec::new();
    let mut current: Vec<char> = Vec::new();
    let mut i: usize = 0;
    while i < text.len()
        invariant
            i <= text.len(),
            done@.len() + 1 == split(text@.take(i as int), sep).len(),
            forall|k: int| 0 <= k < done@.len() ==> #[trigger] done@[k]@ == split(text@.take(i as int), sep)[k],
            current@ == split(text@.take(i as int), sep).last(),
        decreases text.len() - i,
    {
        proof {
            lemma_split_not_empty(text@.take(i as int), sep);
            assert(text@.take(i + 1).drop_last() == text@.take(i as int));
        }
        let c = text[i];
        if c == sep {
            let finished = current;
            done.push(finished);
            current = Vec::new();
        } else {
            current.push(c);
        }
        i = i + 1;
    }
    proof {
        assert(text@.take(text.len() as int) == text@);
        lemma_split_not_empty(text@, sep);
    }
    done.push(current);
    done
}

/// Whether two runs of characters are the same.
pub fn same_chars(a: &Vec<char>, b: &Vec<char>) -> (same: bool)
    ensures
        same == (a@ == b@),
{
    if a.len() != b.len() {
        return false;
    }
    let mut i: usize = 0;
    while i < a.len()
        invariant
            i <= a.len(),
            a.len() == b.len(),
            a@.take(i as int) == b@.take(i as int),
        decreases a.len() - i,
    {
        if a[i] != b[i] {
            assert(a@[i as int] != b@[i as int]);
            return false;
        }
        assert(a@.take(i + 1) == a@.take(i as int).push(a@[i as int]));
        assert(b@.take(i + 1) == b@.take(i as int).push(b@[i as int]));
        i = i + 1;
    }
    assert(a@ == a@.take(a.len() as int));
    assert(b@ == b@.take(b.len() as int));
    true
}

/// Whether `text` begins with `start`.
pub fn starts_with_chars(text: &Vec<char>, start: &Vec<char>) -> (starts: bool)
    ensures
        starts == (start@.len() <= text@.len() && text@.take(start@.len() as int) == start@),
{
    if start.len() > text.len() {
        return false;
    }
    let mut i: usize = 0;
    while i < start.len()
        invariant
            i <= start.len(),
            start.len() <= text.len(),
            text@.take(i as int) == start@.take(i as int),
        decreases start.len() - i,
    {
        if text[i] != start[i] {
            assert(text@.take(start@.len() as int)[i as int] != start@[i as int]);
            return false;
        }
        assert(text@.take(i + 1) == text@.take(i as int).push(text@[i as int]));
        assert(start@.take(i + 1) == start@.take(i as int).push(start@[i as int]));
        i = i + 1;
    }
    assert(start@ == start@.take(start.len() as int));
    true
}

} // verus!
