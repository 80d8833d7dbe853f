//! Text as sequences of characters: lengths in UTF-8, searching, splitting, joining and
//! decimal numbers. Every function here is stated over the characters of its arguments.

use vstd::prelude::*;
use vstd::utf8::*;

verus! {

/// `String::push` appends one character.
pub assume_specification[ String::push ](string: &mut String, c: char)
    ensures
        final(string)@ == old(string)@.push(c),
;

/// Bytes that `text` takes in UTF-8.
pub open spec fn byte_len(text: Seq<char>) -> nat {
    encode_utf8(text).len()
}

/// The characters of `text`.
pub fn chars_of(text: &str) -> (chars: Vec<char>)
    ensures
        chars@ == text@,
{
    let mut chars: Vec<char> = Vec::new();
    for c in it: text.chars()
        invariant
            chars@ == text@.take(it.index() as int),
            it.seq() == text@,
    {
        chars.push(c);
        assert(text@.take(it.index() as int).push(c) =~= text@.take(it.index() + 1));
    }
    assert(text@.take(text@.len() as int) =~= text@);
    chars
}

/// The characters from `from` up to `to`, as text.
pub fn text_between(chars: &Vec<char>, from: usize, to: usize) -> (text: String)
    requires
        from <= to <= chars@.len(),
    ensures
        text@ == chars@.subrange(from as int, to as int),
{
    let mut text = String::new();
    let mut at: usize = from;
    while at < to
        invariant
            from <= at <= to <= chars@.len(),
            text@ == chars@.subrange(from as int, at as int),
        decreases to - at,
    {
        text.push(chars[at]);
        assert(chars@.subrange(from as int, at as int).push(chars@[at as int]) =~= chars@.subrange(
            from as int,
            at + 1,
        ));
        at += 1;
    }
    text
}

pub fn text_of(chars: &Vec<char>) -> (text: String)
    ensures
        text@ == chars@,
{
    let text = text_between(chars, 0, chars.len());
    assert(chars@.subrange(0, chars@.len() as int) =~= chars@);
    text
}


/// Whether two texts hold the same characters.
pub fn same(a: &str, b: &str) -> (equal: bool)
    ensures
        equal == (a@ == b@),
{
    let left = chars_of(a);
    let right = chars_of(b);
    same_chars(&left, &right)
}

pub fn same_chars(a: &Vec<char>, b: &Vec<char>) -> (equal: bool)
    ensures
        equal == (a@ == b@),
{
    if a.len() != b.len() {
        return false;
    }
    let mut i: usize = 0;
    while i < a.len()
        invariant
            i <= a@.len() == b@.len(),
            a@.take(i as int) == b@.take(i as int),
        decreases a@.len() - i,
    {
        if a[i] != b[i] {
            return false;
        }
        assert(a@.take(i + 1) =~= a@.take(i as int).push(a@[i as int]));
        assert(b@.take(i + 1) =~= b@.take(i as int).push(b@[i as int]));
        i += 1;
    }
    assert(a@.take(i as int) =~= a@);
    assert(b@.take(i as int) =~= b@);
    true
}

// ---- UTF-8 lengths ----

/// UTF-8 lengths add up.
pub proof fn lemma_byte_len_concat(a: Seq<char>, b: Seq<char>)
    ensures
        byte_len(a + b) == byte_len(a) + byte_len(b),
        encode_utf8(a + b) == encode_utf8(a) + encode_utf8(b),
    decreases a.len(),
{
    if a.len() == 0 {
        assert(a + b =~= b);
    } else {
        assert((a + b).drop_first() =~= a.drop_first() + b);
        lemma_byte_len_concat(a.drop_first(), b);
    }
}

pub proof fn lemma_byte_len_push(a: Seq<char>, c: char)
    ensures
        byte_len(a.push(c)) == byte_len(a) + encode_scalar(c as u32).len(),
{
    let one = seq![c];
    assert(a.push(c) =~= a + one);
    lemma_byte_len_concat(a, one);
    assert(one.drop_first() =~= Seq::<char>::empty());
    reveal_with_fuel(encode_utf8, 2);
}

/// A longer range takes at least as many bytes.
pub proof fn lemma_byte_len_subrange(text: Seq<char>, from: int, to: int)
    requires
        0 <= from <= to <= text.len(),
    ensures
        byte_len(text.subrange(from, to)) <= byte_len(text),
{
    let head = text.subrange(0, from);
    let mid = text.subrange(from, to);
    let tail = text.subrange(to, text.len() as int);
    assert(text =~= head + (mid + tail));
    lemma_byte_len_concat(head, mid + tail);
    lemma_byte_len_concat(mid, tail);
}

/// Every character takes at least one byte.
pub proof fn lemma_byte_len_at_least(text: Seq<char>)
    ensures
        text.len() <= byte_len(text),
    decreases text.len(),
{
    if text.len() > 0 {
        lemma_byte_len_at_least(text.drop_first());
    }
}

/// Bytes that one character takes in UTF-8.
pub fn utf8_width(c: char) -> (width: usize)
    ensures
        width == encode_scalar(c as u32).len(),
        1 <= width <= 4,
{
    let scalar: u32 = c as u32;
    if scalar <= 0x7F {
        1
    } else if scalar <= 0x7FF {
        2
    } else if scalar <= 0xFFFF {
        3
    } else {
        4
    }
}

/// Bytes that a text takes in UTF-8.
pub fn byte_count(text: &str) -> (bytes: usize)
    ensures
        bytes == byte_len(text@),
{
    text.as_bytes().len()
}

/// Bytes that the characters from `from` up to `to` take in UTF-8.
pub fn bytes_between(chars: &Vec<char>, from: usize, to: usize) -> (bytes: usize)
    requires
        from <= to <= chars@.len(),
        byte_len(chars@) <= usize::MAX,
    ensures
        bytes == byte_len(chars@.subrange(from as int, to as int)),
{
    let mut bytes: usize = 0;
    let mut at: usize = from;
    assert(chars@.subrange(from as int, from as int) =~= Seq::<char>::empty());
    while at < to
        invariant
            from <= at <= to <= chars@.len(),
            byte_len(chars@) <= usize::MAX,
            bytes == byte_len(chars@.subrange(from as int, at as int)),
        decreases to - at,
    {
        proof {
            assert(chars@.subrange(from as int, at as int).push(chars@[at as int])
                =~= chars@.subrange(from as int, at + 1));
            lemma_byte_len_push(chars@.subrange(from as int, at as int), chars@[at as int]);
            lemma_byte_len_subrange(chars@, from as int, at + 1);
        }
        bytes += utf8_width(chars[at]);
        at += 1;
    }
    bytes
}

/// The end of a leading run of characters is a character boundary.
proof fn lemma_boundary(a: Seq<char>, b: Seq<char>)
    ensures
        is_char_boundary(encode_utf8(a + b), byte_len(a) as int),
    decreases a.len(),
{
    broadcast use group_utf8_lib;

    let all = encode_utf8(a + b);
    if a.len() == 0 {
        assert(byte_len(a) == 0);
    } else {
        encode_utf8_first_scalar(a + b);
        let rest = a.drop_first();
        assert((a + b).drop_first() =~= rest + b);
        lemma_boundary(rest, b);
        let width = encode_scalar(a[0] as u32).len();
        assert(pop_first_scalar(all) =~= encode_utf8(rest + b));
        lemma_byte_len_concat(a, b);
    }
}

/// `text` in two parts, the first of `mid` bytes, which end a leading run of `count`
/// characters.
pub(crate) fn cut_bytes<'a>(text: &'a str, mid: usize, Ghost(count): Ghost<int>) -> (parts: (
    &'a str,
    &'a str,
))
    requires
        0 <= count <= text@.len(),
        mid == byte_len(text@.take(count)),
    ensures
        parts.0@ == text@.take(count),
        parts.1@ == text@.skip(count),
{
    let ghost head = text@.take(count);
    let ghost tail = text@.skip(count);
    proof {
        broadcast use group_utf8_lib;

        assert(head + tail =~= text@);
        lemma_boundary(head, tail);
        lemma_byte_len_concat(head, tail);
    }
    let parts = text.split_at(mid);
    proof {
        broadcast use group_utf8_lib;

        assert(encode_utf8(parts.0@) =~= encode_utf8(head));
        assert(encode_utf8(parts.1@) =~= encode_utf8(tail));
        assert(decode_utf8(encode_utf8(parts.0@)) == decode_utf8(encode_utf8(head)));
        assert(decode_utf8(encode_utf8(parts.1@)) == decode_utf8(encode_utf8(tail)));
    }
    parts
}

/// `text` in two parts, the first of `count` characters.
pub fn cut<'a>(text: &'a str, chars: &Vec<char>, count: usize) -> (parts: (&'a str, &'a str))
    requires
        chars@ == text@,
        count <= chars@.len(),
    ensures
        parts.0@ == text@.take(count as int),
        parts.1@ == text@.skip(count as int),
{
    let bytes: usize = byte_count(text);
    let mid: usize = bytes_between(chars, 0, count);
    assert(chars@.subrange(0, count as int) =~= text@.take(count as int));
    cut_bytes(text, mid, Ghost(count as int))
}

/// Bytes read as UTF-8, with a mark in place of what is no UTF-8.
pub uninterp spec fn lossy(bytes: Seq<u8>) -> Seq<char>;

/// `String::from_utf8_lossy`: the text that bytes write in UTF-8. Where they are not UTF-8
/// throughout, nothing is said here of where the replacement characters stand.
#[verifier::external_body]
pub(crate) fn text_from_utf8(bytes: &Vec<u8>) -> (text: String)
    ensures
        text@ == lossy(bytes@),
        valid_utf8(bytes@) ==> text@ == decode_utf8(bytes@),
{
    String::from_utf8_lossy(bytes).into_owned()
}

// ---- Searching ----

/// Whether `needle` stands in `text` at position `at`.
pub open spec fn stands_at<T>(text: Seq<T>, needle: Seq<T>, at: int) -> bool {
    0 <= at && at + needle.len() <= text.len() && text.subrange(at, at + needle.len()) == needle
}

/// The first position at or after `from` where `needle` stands.
pub open spec fn find_from<T>(text: Seq<T>, needle: Seq<T>, from: int) -> Option<int>
    decreases text.len() + 1 - from,
{
    if from < 0 || from + needle.len() > text.len() {
        None
    } else if stands_at(text, needle, from) {
        Some(from)
    } else {
        find_from(text, needle, from + 1)
    }
}

pub open spec fn find<T>(text: Seq<T>, needle: Seq<T>) -> Option<int> {
    find_from(text, needle, 0)
}

pub open spec fn holds<T>(text: Seq<T>, needle: Seq<T>) -> bool {
    find(text, needle) is Some
}

/// How often `needle` stands in `text` from `from` on, counting from the left without
/// overlaps. An empty needle stands before every character and at the end.
pub open spec fn occurrences_from<T>(text: Seq<T>, needle: Seq<T>, from: int) -> nat
    decreases text.len() - from,
{
    if needle.len() == 0 {
        if 0 <= from <= text.len() {
            (text.len() - from + 1) as nat
        } else {
            0
        }
    } else {
        match find_from(text, needle, from) {
            Some(at) => if from <= at && at + needle.len() <= text.len() {
                1 + occurrences_from(text, needle, at + needle.len())
            } else {
                0
            },
            None => 0,
        }
    }
}

/// A search finds the earliest place, and finds none only where there is none.
pub proof fn lemma_find_from<T>(text: Seq<T>, needle: Seq<T>, from: int)
    requires
        0 <= from,
    ensures
        match find_from(text, needle, from) {
            Some(at) => from <= at && stands_at(text, needle, at) && forall|i: int|
                from <= i < at ==> !#[trigger] stands_at(text, needle, i),
            None => forall|i: int| from <= i ==> !#[trigger] stands_at(text, needle, i),
        },
    decreases text.len() + 1 - from,
{
    if from + needle.len() <= text.len() && !stands_at(text, needle, from) {
        lemma_find_from(text, needle, from + 1);
    }
}

/// A text occurs where it stands, and it occurs more than once exactly where it stands in two places
/// that do not overlap.
pub proof fn law_places_that_overlap_count_once<T>(text: Seq<T>, needle: Seq<T>)
    requires
        needle.len() > 0,
    ensures
        occurrences_from(text, needle, 0) > 0 <==> exists|i: int| #[trigger]
            stands_at(text, needle, i),
        occurrences_from(text, needle, 0) > 1 <==> exists|i: int, j: int|
            #![trigger stands_at(text, needle, i), stands_at(text, needle, j)]
            stands_at(text, needle, i) && stands_at(text, needle, j) && i + needle.len() <= j,
{
    lemma_find_from(text, needle, 0);
    reveal_with_fuel(occurrences_from, 2);
    match find_from(text, needle, 0) {
        Some(at) => {
            let next = at + needle.len();
            assert(occurrences_from(text, needle, 0) == 1 + occurrences_from(text, needle, next));
            lemma_find_from(text, needle, next);
            if find_from(text, needle, next) is Some {
                let second = find_from(text, needle, next)->0;
                assert(stands_at(text, needle, at) && stands_at(text, needle, second));
            }
            if exists|i: int, j: int|
                #![trigger stands_at(text, needle, i), stands_at(text, needle, j)]
                stands_at(text, needle, i) && stands_at(text, needle, j) && i + needle.len() <= j {
                let (i, j) = choose|i: int, j: int|
                    #![trigger stands_at(text, needle, i), stands_at(text, needle, j)]
                    stands_at(text, needle, i) && stands_at(text, needle, j) && i + needle.len()
                        <= j;
                assert(at <= i);
            }
        },
        None => {},
    }
}

/// Whether `needle` stands in `text` at position `at`.
pub fn is_at(text: &Vec<char>, needle: &Vec<char>, at: usize) -> (found: bool)
    ensures
        found == stands_at(text@, needle@, at as int),
{
    if at > text.len() || needle.len() > text.len() - at {
        return false;
    }
    let mut i: usize = 0;
    while i < needle.len()
        invariant
            i <= needle@.len(),
            at + needle@.len() <= text@.len() <= usize::MAX,
            text@.subrange(at as int, at + i) == needle@.take(i as int),
        decreases needle@.len() - i,
    {
        if text[at + i] != needle[i] {
            assert(text@.subrange(at as int, at + needle@.len())[i as int] != needle@[i as int]);
            return false;
        }
        assert(text@.subrange(at as int, at + i + 1) =~= text@.subrange(at as int, at + i).push(
            text@[at + i],
        ));
        assert(needle@.take(i + 1) =~= needle@.take(i as int).push(needle@[i as int]));
        i += 1;
    }
    assert(needle@.take(i as int) =~= needle@);
    true
}

/// The first position at or after `from` where `needle` stands.
pub fn position_from(text: &Vec<char>, needle: &Vec<char>, from: usize) -> (found: Option<usize>)
    ensures
        match found {
            Some(at) => find_from(text@, needle@, from as int) == Some(at as int) && stands_at(
                text@,
                needle@,
                at as int,
            ) && from <= at,
            None => find_from(text@, needle@, from as int) is None,
        },
{
    if from > text.len() || needle.len() > text.len() - from {
        return None;
    }
    let last: usize = text.len() - needle.len();
    let mut at: usize = from;
    while at < last && !is_at(text, needle, at)
        invariant
            from <= at <= last,
            last == text@.len() - needle@.len(),
            find_from(text@, needle@, from as int) == find_from(text@, needle@, at as int),
        decreases last - at,
    {
        at += 1;
    }
    if is_at(text, needle, at) {
        Some(at)
    } else {
        assert(find_from(text@, needle@, at + 1) is None);
        None
    }
}

pub fn position(text: &Vec<char>, needle: &Vec<char>) -> (found: Option<usize>)
    ensures
        match found {
            Some(at) => find(text@, needle@) == Some(at as int) && stands_at(
                text@,
                needle@,
                at as int,
            ),
            None => find(text@, needle@) is None,
        },
{
    position_from(text, needle, 0)
}

/// How often `needle` stands in `text`, without overlaps.
pub fn count(text: &Vec<char>, needle: &Vec<char>) -> (total: u128)
    ensures
        total == occurrences_from(text@, needle@, 0),
{
    if needle.len() == 0 {
        return text.len() as u128 + 1;
    }
    let mut total: u128 = 0;
    let mut from: usize = 0;
    let length: usize = text.len();
    loop
        invariant
            0 < needle@.len(),
            from <= text@.len() == length,
            total <= from,
            occurrences_from(text@, needle@, 0) == total + occurrences_from(
                text@,
                needle@,
                from as int,
            ),
        decreases text@.len() - from,
    {
        match position_from(text, needle, from) {
            Some(at) => {
                total += 1;
                from = at + needle.len();
            },
            None => {
                return total;
            },
        }
    }
}

// ---- Splitting and joining ----

/// The pieces between separators: one more than there are separators.
pub open spec fn split_on<T>(text: Seq<T>, separator: T) -> Seq<Seq<T>>
    decreases text.len(),
{
    if text.len() == 0 {
        seq![text]
    } else {
        let pieces = split_on(text.drop_last(), separator);
        if text.last() == separator {
            pieces.push(Seq::empty())
        } else {
            pieces.update(pieces.len() - 1, pieces.last().push(text.last()))
        }
    }
}

/// The pieces in order with `separator` between neighbours.
pub open spec fn join<T>(pieces: Seq<Seq<T>>, separator: Seq<T>) -> Seq<T>
    decreases pieces.len(),
{
    if pieces.len() == 0 {
        Seq::empty()
    } else if pieces.len() == 1 {
        pieces[0]
    } else {
        join(pieces.drop_last(), separator) + separator + pieces.last()
    }
}

pub proof fn lemma_split_on_nonempty<T>(text: Seq<T>, separator: T)
    ensures
        split_on(text, separator).len() >= 1,
    decreases text.len(),
{
    if text.len() > 0 {
        lemma_split_on_nonempty(text.drop_last(), separator);
    }
}

/// `bounds` are the places of the pieces of `text` between separators.
pub open spec fn are_bounds<T>(bounds: Seq<(usize, usize)>, text: Seq<T>, separator: T) -> bool {
    &&& bounds.len() == split_on(text, separator).len()
    &&& bounds.len() >= 1
    &&& bounds[0].0 == 0
    &&& bounds.last().1 == text.len()
    &&& forall|i: int|
        0 <= i < bounds.len() ==> {
            &&& (#[trigger] bounds[i]).0 <= bounds[i].1 <= text.len()
            &&& text.subrange(bounds[i].0 as int, bounds[i].1 as int) == split_on(
                text,
                separator,
            )[i]
        }
    &&& forall|i: int, j: int|
        0 <= i && j == i + 1 && j < bounds.len() ==> (#[trigger] bounds[j]).0 == (
        #[trigger] bounds[i]).1 + 1 && text[bounds[i].1 as int] == separator
}

/// The bounds of a text that goes on with `c`, from those of the text before it.
proof fn lemma_next_bounds<T>(bounds: Seq<(usize, usize)>, text: Seq<T>, c: T, separator: T)
    requires
        are_bounds(bounds, text, separator),
        text.len() < usize::MAX,
    ensures
        c == separator ==> are_bounds(
            bounds.push(((text.len() + 1) as usize, (text.len() + 1) as usize)),
            text.push(c),
            separator,
        ),
        c != separator ==> are_bounds(
            bounds.drop_last().push((bounds.last().0, (text.len() + 1) as usize)),
            text.push(c),
            separator,
        ),
{
    let after = text.push(c);
    let pieces = split_on(after, separator);
    let last = bounds.len() - 1;
    assert(after.drop_last() =~= text);
    if c == separator {
        let end = (text.len() + 1) as usize;
        let now = bounds.push((end, end));
        assert forall|i: int| 0 <= i < now.len() implies {
            &&& (#[trigger] now[i]).0 <= now[i].1 <= after.len()
            &&& after.subrange(now[i].0 as int, now[i].1 as int) == pieces[i]
        } by {
            if i <= last {
                assert(now[i] == bounds[i]);
                assert(after.subrange(now[i].0 as int, now[i].1 as int) =~= text.subrange(
                    now[i].0 as int,
                    now[i].1 as int,
                ));
            } else {
                assert(after.subrange(now[i].0 as int, now[i].1 as int) =~= Seq::<T>::empty());
            }
        }
        assert forall|i: int, j: int| 0 <= i && j == i + 1 && j < now.len() implies (
        #[trigger] now[j]).0 == (#[trigger] now[i]).1 + 1 && after[now[i].1 as int]
            == separator by {
            assert(now[i] == bounds[i]);
            if j <= last {
                assert(now[j] == bounds[j]);
            }
        }
        assert(now[0] == bounds[0]);
        assert(now.len() == pieces.len());
        assert(now.last() == (end, end));
        assert(are_bounds(now, after, separator));
    } else {
        let end = (text.len() + 1) as usize;
        let now = bounds.drop_last().push((bounds.last().0, end));
        assert(now.len() == bounds.len() == pieces.len());
        assert forall|i: int| 0 <= i < now.len() implies {
            &&& (#[trigger] now[i]).0 <= now[i].1 <= after.len()
            &&& after.subrange(now[i].0 as int, now[i].1 as int) == pieces[i]
        } by {
            if i < last {
                assert(now[i] == bounds[i]);
                assert(after.subrange(now[i].0 as int, now[i].1 as int) =~= text.subrange(
                    now[i].0 as int,
                    now[i].1 as int,
                ));
            } else {
                assert(now[i] == (bounds[last].0, end));
                assert(after.subrange(now[i].0 as int, now[i].1 as int) =~= text.subrange(
                    bounds[last].0 as int,
                    bounds[last].1 as int,
                ).push(c));
            }
        }
        assert forall|i: int, j: int| 0 <= i && j == i + 1 && j < now.len() implies (
        #[trigger] now[j]).0 == (#[trigger] now[i]).1 + 1 && after[now[i].1 as int]
            == separator by {
            assert(now[i] == bounds[i]);
            assert(now[j].0 == bounds[j].0);
        }
        assert(now[0].0 == bounds[0].0);
        assert(now.last() == (bounds[last].0, end));
        assert(are_bounds(now, after, separator));
    }
}

/// Where the pieces of `chars` between separators stand.
pub fn pieces_of(chars: &Vec<char>, separator: char) -> (bounds: Vec<(usize, usize)>)
    ensures
        are_bounds(bounds@, chars@, separator),
{
    let mut bounds: Vec<(usize, usize)> = Vec::new();
    let mut start: usize = 0;
    let mut at: usize = 0;
    let length: usize = chars.len();
    proof {
        assert(chars@.take(0) =~= Seq::<char>::empty());
        assert(chars@.take(0).subrange(0, 0) =~= Seq::<char>::empty());
        let first = bounds@.push((0usize, 0usize));
        assert(first =~= seq![(0usize, 0usize)]);
        assert(split_on(chars@.take(0), separator).len() == 1);
        assert(first[0] == (0usize, 0usize));
        assert(are_bounds(first, chars@.take(0), separator));
    }
    while at < length
        invariant
            start <= at <= chars@.len() == length,
            are_bounds(bounds@.push((start, at)), chars@.take(at as int), separator),
        decreases length - at,
    {
        let ghost whole = bounds@.push((start, at));
        proof {
            lemma_next_bounds(whole, chars@.take(at as int), chars@[at as int], separator);
            assert(chars@.take(at as int).push(chars@[at as int]) =~= chars@.take(at + 1));
            assert(whole.drop_last() =~= bounds@);
            assert(whole.last() == (start, at));
        }
        if chars[at] == separator {
            bounds.push((start, at));
            start = at + 1;
        }
        at += 1;
    }
    bounds.push((start, at));
    assert(chars@.take(at as int) =~= chars@);
    bounds
}

/// Neighbouring pieces joined by the separator are the text they came from.
pub proof fn lemma_join_bounds<T>(
    bounds: Seq<(usize, usize)>,
    text: Seq<T>,
    separator: T,
    i: int,
    j: int,
)
    requires
        are_bounds(bounds, text, separator),
        0 <= i < j <= bounds.len(),
    ensures
        bounds[i].0 <= bounds[j - 1].1 <= text.len(),
        join(split_on(text, separator).subrange(i, j), seq![separator]) == text.subrange(
            bounds[i].0 as int,
            bounds[j - 1].1 as int,
        ),
    decreases j - i,
{
    let pieces = split_on(text, separator).subrange(i, j);
    if j == i + 1 {
        assert(pieces.len() == 1);
    } else {
        lemma_join_bounds(bounds, text, separator, i, j - 1);
        assert(pieces.drop_last() =~= split_on(text, separator).subrange(i, j - 1));
        assert(pieces.last() == split_on(text, separator)[j - 1]);
        assert(bounds[j - 1].0 == bounds[j - 2].1 + 1);
        assert(text.subrange(bounds[i].0 as int, bounds[j - 1].1 as int) =~= text.subrange(
            bounds[i].0 as int,
            bounds[j - 2].1 as int,
        ) + seq![separator] + text.subrange(bounds[j - 1].0 as int, bounds[j - 1].1 as int));
    }
}

/// Joined pieces begin with the first of them joined, and end with the others joined.
pub proof fn lemma_join_parts<T>(pieces: Seq<Seq<T>>, separator: Seq<T>, count: int)
    requires
        0 < count < pieces.len(),
    ensures
        join(pieces, separator) == join(pieces.take(count), separator) + separator + join(
            pieces.skip(count),
            separator,
        ),
    decreases pieces.len(),
{
    let rest = pieces.drop_last();
    let tail = pieces.skip(count);
    if count == pieces.len() - 1 {
        assert(rest =~= pieces.take(count));
        assert(tail =~= seq![pieces.last()]);
        assert(join(tail, separator) == pieces.last());
    } else {
        lemma_join_parts(rest, separator, count);
        assert(rest.take(count) =~= pieces.take(count));
        assert(rest.skip(count) =~= tail.drop_last());
        assert(tail.last() == pieces.last());
        assert(join(pieces, separator) =~= join(pieces.take(count), separator) + separator + join(
            tail,
            separator,
        ));
    }
}

/// Splitting and joining again gives the text back.
pub proof fn lemma_join_split<T>(text: Seq<T>, separator: T)
    ensures
        join(split_on(text, separator), seq![separator]) == text,
    decreases text.len(),
{
    if text.len() > 0 {
        let before = text.drop_last();
        let pieces = split_on(before, separator);
        lemma_join_split(before, separator);
        lemma_split_on_nonempty(before, separator);
        let all = split_on(text, separator);
        if text.last() == separator {
            assert(all.drop_last() =~= pieces);
            assert(join(all, seq![separator]) =~= before + seq![separator] + Seq::<T>::empty());
            assert(text =~= before.push(text.last()));
        } else {
            assert(all.drop_last() =~= pieces.drop_last());
            assert(text =~= before.push(text.last()));
            if pieces.len() == 1 {
                assert(all.len() == 1);
            } else {
                let head = join(pieces.drop_last(), seq![separator]);
                assert(join(pieces, seq![separator]) == head + seq![separator] + pieces.last());
                assert(join(all, seq![separator]) == head + seq![separator] + all.last());
                assert(all.last() == pieces.last().push(text.last()));
                assert(head + seq![separator] + all.last() =~= (head + seq![separator]
                    + pieces.last()).push(text.last()));
            }
        }
    }
}

/// No piece holds the separator.
pub proof fn lemma_split_has_no_separator<T>(text: Seq<T>, separator: T)
    ensures
        forall|i: int| #![trigger split_on(text, separator)[i]]
            0 <= i < split_on(text, separator).len() ==> !split_on(
                text,
                separator,
            )[i].contains(separator),
    decreases text.len(),
{
    let pieces = split_on(text, separator);
    if text.len() > 0 {
        let before = split_on(text.drop_last(), separator);
        lemma_split_on_nonempty(text.drop_last(), separator);
        lemma_split_has_no_separator(text.drop_last(), separator);
        assert forall|i: int| #![trigger pieces[i]] 0 <= i < pieces.len() implies !pieces[i].contains(
            separator,
        ) by {
            if i < before.len() - 1 {
                assert(pieces[i] == before[i]);
            } else {
                assert(before.last() == before[before.len() - 1]);
                if text.last() != separator {
                    let last = before.last();
                    assert(pieces[i] == last.push(text.last()));
                    if pieces[i].contains(separator) {
                        let k = choose|k: int|
                            0 <= k < pieces[i].len() && pieces[i][k] == separator;
                        assert(last[k] == separator);
                    }
                } else if i < before.len() {
                    assert(pieces[i] == before[i]);
                }
            }
        }
    }
}

/// Joining pieces that hold no separator, and splitting again, gives the pieces back.
pub proof fn lemma_split_join<T>(pieces: Seq<Seq<T>>, separator: T)
    requires
        pieces.len() > 0,
        forall|i: int| #![trigger pieces[i]]
            0 <= i < pieces.len() ==> !pieces[i].contains(separator),
    ensures
        split_on(join(pieces, seq![separator]), separator) == pieces,
    decreases pieces.len(),
{
    let rest = pieces.drop_last();
    let last = pieces.last();
    assert(pieces[pieces.len() - 1] == last);
    if rest.len() == 0 {
        assert(join(pieces, seq![separator]) =~= last);
        lemma_split_after(Seq::empty(), last, separator);
        assert(Seq::<T>::empty() + last =~= last);
        assert(pieces =~= seq![last]);
    } else {
        assert forall|i: int| #![trigger rest[i]] 0 <= i < rest.len() implies !rest[i].contains(
            separator,
        ) by {
            assert(rest[i] == pieces[i]);
        }
        lemma_split_join(rest, separator);
        let head = join(rest, seq![separator]) + seq![separator];
        assert(head.drop_last() =~= join(rest, seq![separator]));
        let split_head = split_on(head, separator);
        assert(split_head == rest.push(Seq::empty()));
        lemma_split_after(head, last, separator);
        assert(join(pieces, seq![separator]) =~= head + last);
        assert(rest.push(last) =~= pieces);
        assert(split_head.drop_last() =~= rest);
        assert(Seq::<T>::empty() + last =~= last);
    }
}

/// Characters that are no separator go on with the last piece.
pub proof fn lemma_split_after<T>(head: Seq<T>, more: Seq<T>, separator: T)
    requires
        !more.contains(separator),
    ensures
        split_on(head + more, separator) == split_on(
            head,
            separator,
        ).drop_last().push(split_on(head, separator).last() + more),
    decreases more.len(),
{
    let before = split_on(head, separator);
    lemma_split_on_nonempty(head, separator);
    if more.len() == 0 {
        assert(head + more =~= head);
        assert(before.last() + more =~= before.last());
        assert(before.drop_last().push(before.last()) =~= before);
    } else {
        let less = more.drop_last();
        assert(more.last() == more[more.len() - 1]);
        assert(!less.contains(separator)) by {
            if less.contains(separator) {
                let k = choose|k: int| 0 <= k < less.len() && less[k] == separator;
                assert(more[k] == separator);
            }
        }
        lemma_split_after(head, less, separator);
        assert((head + more).drop_last() =~= head + less);
        assert((head + more).last() == more.last());
        assert(more.contains(more.last()));
        let step = split_on(head + less, separator);
        assert(step.last().push(more.last()) =~= before.last() + more);
        assert(step.drop_last() =~= before.drop_last());
        assert(split_on(head + more, separator) =~= before.drop_last().push(
            before.last() + more,
        ));
    }
}

/// A separator between two texts parts their pieces.
pub proof fn lemma_split_concat<T>(first: Seq<T>, second: Seq<T>, separator: T)
    ensures
        split_on(first.push(separator) + second, separator) == split_on(first, separator)
            + split_on(second, separator),
    decreases second.len(),
{
    let head = first.push(separator);
    lemma_split_on_nonempty(first, separator);
    lemma_split_on_nonempty(second, separator);
    if second.len() == 0 {
        assert(second =~= Seq::<T>::empty());
        assert(head + second =~= head);
        assert(head.drop_last() =~= first);
        assert(split_on(second, separator) =~= seq![Seq::<T>::empty()]);
        assert(split_on(head, separator) =~= split_on(first, separator) + split_on(
            second,
            separator,
        ));
    } else {
        let rest = second.drop_last();
        lemma_split_concat(first, rest, separator);
        lemma_split_on_nonempty(rest, separator);
        assert((head + second).drop_last() =~= head + rest);
        assert((head + second).last() == second.last());
        let before = split_on(first, separator);
        let pieces = split_on(rest, separator);
        assert((before + pieces).last() == pieces.last());
        assert((before + pieces).drop_last() =~= before + pieces.drop_last());
        assert(split_on(head + second, separator) =~= before + split_on(second, separator));
    }
}

// ---- Decimal numbers ----

pub open spec fn digit(value: nat) -> char {
    (('0' as u32) + value) as char
}

/// `value` in decimal, without leading zeros.
pub open spec fn decimal(value: nat) -> Seq<char>
    decreases value,
{
    if value < 10 {
        seq![digit(value)]
    } else {
        decimal(value / 10).push(digit(value % 10))
    }
}

/// `value` in decimal, with a minus sign where it is negative.
pub open spec fn decimal_int(value: int) -> Seq<char> {
    if value < 0 {
        "-"@ + decimal((-value) as nat)
    } else {
        decimal(value as nat)
    }
}

fn digit_of(value: u128) -> (c: char)
    requires
        value < 10,
    ensures
        c == digit(value as nat),
{
    match value {
        0 => '0',
        1 => '1',
        2 => '2',
        3 => '3',
        4 => '4',
        5 => '5',
        6 => '6',
        7 => '7',
        8 => '8',
        _ => '9',
    }
}

/// `value` in decimal.
pub fn number(value: u128) -> (text: String)
    ensures
        text@ == decimal(value as nat),
    decreases value,
{
    if value < 10 {
        let mut text = String::new();
        text.push(digit_of(value));
        assert(text@ =~= seq![digit(value as nat)]);
        text
    } else {
        let mut text = number(value / 10);
        text.push(digit_of(value % 10));
        text
    }
}

/// `value` in decimal, with its sign.
pub fn signed_number(value: i64) -> (text: String)
    ensures
        text@ == decimal_int(value as int),
{
    if value < 0 {
        let mut text = "-".to_owned();
        let magnitude: u128 = (-(value as i128)) as u128;
        let digits = number(magnitude);
        text.append(digits.as_str());
        text
    } else {
        number(value as u128)
    }
}

// ---- Reading numbers ----

pub open spec fn is_digit(c: char) -> bool {
    '0' <= c <= '9'
}

/// The number that digits write in decimal.
pub open spec fn digits_value(digits: Seq<char>) -> nat
    decreases digits.len(),
{
    if digits.len() == 0 {
        0
    } else {
        digits_value(digits.drop_last()) * 10 + ((digits.last() as u32) - ('0' as u32)) as nat
    }
}

/// A number below zero has a minus sign before its digits, and no other has one.
pub proof fn law_a_minus_sign_stands_before_negative_numbers(value: nat)
    ensures
        decimal_int(value as int) == decimal(value),
        value > 0 ==> decimal_int(-(value as int)) == "-"@ + decimal(value),
{
}

/// A number in decimal is digits that write the number, without a leading zero.
pub proof fn law_decimal_writes_the_number(value: nat)
    ensures
        digits_value(decimal(value)) == value,
        decimal(value).len() > 0,
        forall|i: int| #![trigger decimal(value)[i]]
            0 <= i < decimal(value).len() ==> is_digit(decimal(value)[i]),
        decimal(value)[0] == '0' ==> value == 0,
    decreases value,
{
    let digits = decimal(value);
    let last = digit(value % 10);
    assert(is_digit(last) && (last as u32) - ('0' as u32) == value % 10);
    if value < 10 {
        reveal_with_fuel(digits_value, 2);
        assert(digits.drop_last() =~= Seq::<char>::empty());
    } else {
        law_decimal_writes_the_number(value / 10);
        let before = decimal(value / 10);
        assert(digits.drop_last() =~= before);
        assert(digits[0] == before[0]);
        assert forall|i: int| #![trigger digits[i]] 0 <= i < digits.len() implies is_digit(
            digits[i],
        ) by {
            if i < before.len() {
                assert(digits[i] == before[i]);
            }
        }
    }
}

/// The number that a text of digits writes, where it is no more than `max`.
pub open spec fn unsigned_value(text: Seq<char>, max: nat) -> Option<nat> {
    if text.len() > 0 && (forall|i: int| #![trigger text[i]] 0 <= i < text.len() ==> is_digit(text[i]))
        && digits_value(text) <= max {
        Some(digits_value(text))
    } else {
        None
    }
}

/// The number that a text writes, as `str::parse` reads unsigned numbers: digits, after a plus
/// sign where there is one.
pub open spec fn parsed_number(text: Seq<char>, max: nat) -> Option<nat> {
    if text.len() > 0 && text[0] == '+' {
        unsigned_value(text.skip(1), max)
    } else {
        unsigned_value(text, max)
    }
}

/// More digits write no smaller number.
proof fn lemma_digits_grow(digits: Seq<char>, upto: int)
    requires
        0 <= upto <= digits.len(),
    ensures
        digits_value(digits.take(upto)) <= digits_value(digits),
    decreases digits.len(),
{
    if upto == digits.len() {
        assert(digits.take(upto) =~= digits);
    } else {
        lemma_digits_grow(digits.drop_last(), upto);
        assert(digits.drop_last().take(upto) =~= digits.take(upto));
    }
}

fn unsigned_from(digits: &Vec<char>, from: usize, max: u64) -> (value: Option<u64>)
    requires
        from <= digits@.len(),
    ensures
        match value {
            Some(value) => unsigned_value(digits@.skip(from as int), max as nat) == Some(
                value as nat,
            ),
            None => unsigned_value(digits@.skip(from as int), max as nat) is None,
        },
{
    let ghost text = digits@.skip(from as int);
    if from == digits.len() {
        return None;
    }
    let mut all: usize = from;
    while all < digits.len()
        invariant
            from <= all <= digits@.len(),
            text == digits@.skip(from as int),
            forall|i: int| #![trigger text[i]] 0 <= i < all - from ==> is_digit(text[i]),
        decreases digits@.len() - all,
    {
        let c = digits[all];
        assert(text[all - from] == c);
        if !('0' <= c && c <= '9') {
            assert(!is_digit(text[all - from]));
            return None;
        }
        all += 1;
    }
    let mut value: u64 = 0;
    let mut at: usize = from;
    assert(text.take(0) =~= Seq::<char>::empty());
    while at < digits.len()
        invariant
            from <= at <= digits@.len(),
            text == digits@.skip(from as int),
            forall|i: int| #![trigger text[i]] 0 <= i < text.len() ==> is_digit(text[i]),
            value == digits_value(text.take(at - from)),
            value <= max,
        decreases digits@.len() - at,
    {
        let c = digits[at];
        assert(text[at - from] == c);
        assert(is_digit(text[at - from]));
        let digit: u64 = (c as u32 - '0' as u32) as u64;
        proof {
            assert(text.take(at - from + 1).drop_last() =~= text.take(at - from));
            assert(digits_value(text.take(at - from + 1)) == value * 10 + digit);
            lemma_digits_grow(text, at - from + 1);
        }
        if value > max / 10 {
            return None;
        }
        let tenfold: u64 = value * 10;
        if digit > max || tenfold > max - digit {
            return None;
        }
        value = tenfold + digit;
        at += 1;
    }
    assert(text.take(at - from) =~= text);
    Some(value)
}

/// The number that a text of digits writes.
pub fn unsigned(text: &str, max: u64) -> (value: Option<u64>)
    ensures
        match value {
            Some(value) => unsigned_value(text@, max as nat) == Some(value as nat),
            None => unsigned_value(text@, max as nat) is None,
        },
{
    let digits = chars_of(text);
    assert(digits@.skip(0) =~= text@);
    unsigned_from(&digits, 0, max)
}

/// The number that a text writes, as `str::parse` reads unsigned numbers.
pub fn parse_number(text: &str, max: u64) -> (value: Option<u64>)
    ensures
        match value {
            Some(value) => parsed_number(text@, max as nat) == Some(value as nat),
            None => parsed_number(text@, max as nat) is None,
        },
{
    let digits = chars_of(text);
    assert(digits@.skip(0) =~= text@);
    if digits.len() > 0 && digits[0] == '+' {
        unsigned_from(&digits, 1, max)
    } else {
        unsigned_from(&digits, 0, max)
    }
}

// ---- White space ----

/// Characters with the Unicode property White_Space.
pub open spec fn is_white_space(c: char) -> bool {
    ||| '\u{9}' <= c <= '\u{D}'
    ||| c == ' '
    ||| c == '\u{85}'
    ||| c == '\u{A0}'
    ||| c == '\u{1680}'
    ||| '\u{2000}' <= c <= '\u{200A}'
    ||| c == '\u{2028}'
    ||| c == '\u{2029}'
    ||| c == '\u{202F}'
    ||| c == '\u{205F}'
    ||| c == '\u{3000}'
}

pub fn white_space(c: char) -> (white: bool)
    ensures
        white == is_white_space(c),
{
    ('\u{9}' <= c && c <= '\u{D}') || c == ' ' || c == '\u{85}' || c == '\u{A0}' || c == '\u{1680}'
        || ('\u{2000}' <= c && c <= '\u{200A}') || c == '\u{2028}' || c == '\u{2029}' || c
        == '\u{202F}' || c == '\u{205F}' || c == '\u{3000}'
}

/// White space is what Unicode calls so: the controls from tab to carriage return, the space, the
/// next line, and the spaces and separators beyond ASCII.
pub proof fn law_white_space_is_unicodes(c: char)
    ensures
        is_white_space(c) <==> {
            let code = c as u32;
            ||| 9 <= code <= 13
            ||| code == 32
            ||| code == 133
            ||| code == 160
            ||| code == 5760
            ||| 8192 <= code <= 8202
            ||| code == 8232
            ||| code == 8233
            ||| code == 8239
            ||| code == 8287
            ||| code == 12288
        },
{
}

/// `line` without the white space at its end.
pub open spec fn trim_end(line: Seq<char>) -> Seq<char>
    decreases line.len(),
{
    if line.len() > 0 && is_white_space(line.last()) {
        trim_end(line.drop_last())
    } else {
        line
    }
}

/// Trimming takes the white space at the end and nothing else.
pub proof fn law_trimming_takes_white_space_only(line: Seq<char>)
    ensures
        trim_end(line).len() <= line.len(),
        trim_end(line) == line.take(trim_end(line).len() as int),
        forall|i: int| #![trigger line[i]]
            trim_end(line).len() <= i < line.len() ==> is_white_space(line[i]),
        trim_end(line).len() > 0 ==> !is_white_space(trim_end(line).last()),
    decreases line.len(),
{
    if line.len() > 0 && is_white_space(line.last()) {
        let rest = line.drop_last();
        law_trimming_takes_white_space_only(rest);
        assert(trim_end(line) =~= line.take(trim_end(line).len() as int));
        assert forall|i: int| #![trigger line[i]]
            trim_end(line).len() <= i < line.len() implies is_white_space(line[i]) by {
            if i < rest.len() {
                assert(rest[i] == line[i]);
            }
        }
    } else {
        assert(line.take(line.len() as int) =~= line);
    }
}

/// Where the white space at the end of `chars[from..to]` begins.
pub fn trimmed_end(chars: &Vec<char>, from: usize, to: usize) -> (end: usize)
    requires
        from <= to <= chars@.len(),
    ensures
        from <= end <= to,
        chars@.subrange(from as int, end as int) == trim_end(
            chars@.subrange(from as int, to as int),
        ),
{
    let mut end: usize = to;
    while end > from && white_space(chars[end - 1])
        invariant
            from <= end <= to <= chars@.len(),
            trim_end(chars@.subrange(from as int, end as int)) == trim_end(
                chars@.subrange(from as int, to as int),
            ),
        decreases end,
    {
        assert(chars@.subrange(from as int, end as int).drop_last() =~= chars@.subrange(
            from as int,
            end - 1,
        ));
        end -= 1;
    }
    end
}

/// The words of a text: what white space parts.
pub open spec fn words(text: Seq<char>) -> Seq<Seq<char>>
    decreases text.len(),
{
    if text.len() == 0 {
        Seq::empty()
    } else {
        let before = words(text.drop_last());
        let c = text.last();
        if is_white_space(c) {
            before
        } else if text.len() == 1 || is_white_space(text[text.len() - 2]) {
            before.push(seq![c])
        } else {
            before.drop_last().push(before.last().push(c))
        }
    }
}

/// White space parts words, and nothing else does: a text without white space is one word, and
/// white space between two texts keeps their words apart.
pub proof fn law_white_space_parts_words(before: Seq<char>, space: char, after: Seq<char>)
    requires
        is_white_space(space),
    ensures
        words(before + seq![space] + after) == words(before) + words(after),
        before.len() > 0 && (forall|i: int| #![trigger before[i]]
            0 <= i < before.len() ==> !is_white_space(before[i])) ==> words(before) == seq![before],
        words(Seq::empty()) == Seq::<Seq<char>>::empty(),
    decreases after.len(),
{
    lemma_one_word(before);
    let all = before + seq![space] + after;
    if after.len() == 0 {
        assert(all.drop_last() =~= before);
        assert(words(before) + words(after) =~= words(before));
    } else {
        let rest = after.drop_last();
        law_white_space_parts_words(before, space, rest);
        assert(all.drop_last() =~= before + seq![space] + rest);
        assert(all.last() == after.last());
        if rest.len() > 0 {
            assert(all[all.len() - 2] == rest.last());
            if !is_white_space(rest.last()) {
                lemma_some_word(rest);
                assert((words(before) + words(rest)).drop_last() =~= words(before) + words(
                    rest,
                ).drop_last());
            }
        } else {
            assert(all[all.len() - 2] == space);
        }
        assert(words(all) =~= words(before) + words(after));
    }
}

proof fn lemma_some_word(text: Seq<char>)
    requires
        text.len() > 0,
        !is_white_space(text.last()),
    ensures
        words(text).len() > 0,
{
}

proof fn lemma_one_word(text: Seq<char>)
    ensures
        text.len() > 0 && (forall|i: int| #![trigger text[i]]
            0 <= i < text.len() ==> !is_white_space(text[i])) ==> words(text) == seq![text],
    decreases text.len(),
{
    if text.len() > 0 && (forall|i: int| #![trigger text[i]]
        0 <= i < text.len() ==> !is_white_space(text[i])) {
        let rest = text.drop_last();
        assert(!is_white_space(text[text.len() - 1]));
        if rest.len() > 0 {
            assert forall|i: int| #![trigger rest[i]] 0 <= i < rest.len() implies !is_white_space(
                rest[i],
            ) by {
                assert(rest[i] == text[i]);
            }
            lemma_one_word(rest);
            assert(text[text.len() - 2] == rest.last());
            assert(!is_white_space(text[text.len() - 2]));
            assert(rest.push(text.last()) =~= text);
            assert(words(text) =~= seq![text]);
        } else {
            assert(words(rest) =~= Seq::<Seq<char>>::empty());
            assert(text =~= seq![text.last()]);
            assert(words(text) =~= seq![text]);
        }
    }
}

/// Lines end in line feeds, with or without a carriage return before them; what follows the last
/// line feed is a line of its own unless it is nothing.
pub proof fn law_line_feeds_end_lines(line: Seq<char>, rest: Seq<char>)
    requires
        !line.contains('\n'),
    ensures
        line.len() == 0 || line.last() != '\r' ==> lines(line.push('\n') + rest) == seq![line]
            + lines(rest),
        lines(line + seq!['\r', '\n'] + rest) == seq![line] + lines(rest),
        line.len() > 0 ==> lines(line) == seq![line],
        lines(Seq::empty()) == Seq::<Seq<char>>::empty(),
{
    lemma_lines_after(line, rest);
    let longer = line.push('\r');
    assert(!longer.contains('\n')) by {
        if longer.contains('\n') {
            let i = choose|i: int| 0 <= i < longer.len() && longer[i] == '\n';
            assert(line[i] == '\n');
        }
    }
    lemma_lines_after(longer, rest);
    assert(longer.push('\n') + rest =~= line + seq!['\r', '\n'] + rest);
    assert(longer.drop_last() =~= line);
    lemma_split_join(seq![line], '\n');
    assert(join(seq![line], seq!['\n']) == line);
    if line.len() > 0 {
        assert(lines(line) =~= seq![line]);
    }
    let none = Seq::<char>::empty();
    assert(split_on(none, '\n') =~= seq![none]);
    assert(lines(none) =~= Seq::<Seq<char>>::empty());
}

proof fn lemma_lines_after(line: Seq<char>, rest: Seq<char>)
    requires
        !line.contains('\n'),
    ensures
        lines(line.push('\n') + rest) == seq![
            if line.len() > 0 && line.last() == '\r' {
                line.drop_last()
            } else {
                line
            },
        ] + lines(rest),
{
    let all = line.push('\n') + rest;
    lemma_split_concat(line, rest, '\n');
    lemma_split_join(seq![line], '\n');
    assert(join(seq![line], seq!['\n']) == line);
    lemma_split_on_nonempty(rest, '\n');
    let pieces = split_on(rest, '\n');
    let longer = split_on(all, '\n');
    assert(longer == seq![line] + pieces);
    assert(longer.last() == pieces.last());
    assert forall|i: int| 0 <= i < pieces.len() implies line_of(longer, i + 1) == line_of(
        pieces,
        i,
    ) by {
        assert(longer[i + 1] == pieces[i]);
    }
    assert(lines(all) =~= seq![line_of(longer, 0)] + lines(rest));
}

/// The texts of strings.
pub open spec fn texts(strings: Seq<String>) -> Seq<Seq<char>> {
    strings.map_values(|string: String| string@)
}

pub fn words_of(text: &str) -> (found: Vec<String>)
    ensures
        texts(found@) == words(text@),
{
    let chars = chars_of(text);
    let mut found: Vec<String> = Vec::new();
    let mut word = String::new();
    let mut open = false;
    let mut at: usize = 0;
    assert(chars@.take(0) =~= Seq::<char>::empty());
    assert(texts(found@) =~= Seq::<Seq<char>>::empty());
    while at < chars.len()
        invariant
            at <= chars@.len(),
            open == (at > 0 && !is_white_space(chars@[at - 1])),
            !open ==> word@ == Seq::<char>::empty(),
            words(chars@.take(at as int)) == if open {
                texts(found@).push(word@)
            } else {
                texts(found@)
            },
        decreases chars@.len() - at,
    {
        let c = chars[at];
        let ghost now = chars@.take(at + 1);
        let ghost before = texts(found@);
        assert(now.drop_last() =~= chars@.take(at as int));
        if white_space(c) {
            if open {
                let ghost held = found@;
                found.push(word);
                assert(texts(found@) =~= before.push(word@));
                word = String::new();
            }
            open = false;
        } else {
            if open {
                assert(before.push(word@).drop_last() =~= before);
            }
            word.push(c);
            assert(!open ==> word@ =~= seq![c]);
            open = true;
        }
        at += 1;
    }
    assert(chars@.take(at as int) =~= chars@);
    if open {
        let ghost before = texts(found@);
        found.push(word);
        assert(texts(found@) =~= before.push(word@));
    }
    found
}

// ---- Lines ----

/// A line as `str::lines` gives it: a carriage return before a line feed belongs to the line
/// ending.
pub open spec fn line_of(pieces: Seq<Seq<char>>, i: int) -> Seq<char> {
    if i < pieces.len() - 1 && pieces[i].len() > 0 && pieces[i].last() == '\r' {
        pieces[i].drop_last()
    } else {
        pieces[i]
    }
}

/// The lines of a text, as `str::lines` gives them: a final line feed begins no line.
pub open spec fn lines(text: Seq<char>) -> Seq<Seq<char>> {
    let pieces = split_on(text, '\n');
    let count = if pieces.last().len() == 0 {
        (pieces.len() - 1) as nat
    } else {
        pieces.len()
    };
    Seq::new(count, |i: int| line_of(pieces, i))
}

pub fn lines_of(text: &str) -> (found: Vec<String>)
    ensures
        texts(found@) == lines(text@),
{
    let chars = chars_of(text);
    let bounds = pieces_of(&chars, '\n');
    let ghost pieces = split_on(chars@, '\n');
    let count: usize = bounds.len();
    let (last_start, last_stop) = bounds[count - 1];
    assert(pieces[count - 1] == chars@.subrange(last_start as int, last_stop as int));
    let wanted: usize = if last_start == last_stop {
        count - 1
    } else {
        count
    };
    let mut found: Vec<String> = Vec::new();
    let mut next: usize = 0;
    assert(texts(found@) =~= lines(text@).take(0));
    while next < wanted
        invariant
            chars@ == text@,
            next <= wanted <= count == bounds@.len(),
            wanted == lines(text@).len(),
            are_bounds(bounds@, chars@, '\n'),
            pieces == split_on(chars@, '\n'),
            texts(found@) == lines(text@).take(next as int),
        decreases wanted - next,
    {
        let (start, stop) = bounds[next];
        let ghost piece = pieces[next as int];
        assert(piece == chars@.subrange(start as int, stop as int));
        let end: usize = if next < count - 1 && stop > start && chars[stop - 1] == '\r' {
            stop - 1
        } else {
            stop
        };
        proof {
            if stop > start {
                assert(piece.last() == chars@[stop - 1]);
            }
            assert(line_of(pieces, next as int) =~= chars@.subrange(start as int, end as int));
        }
        let line = text_between(&chars, start, end);
        let ghost before = texts(found@);
        found.push(line);
        assert(texts(found@) =~= before.push(line@));
        assert(texts(found@) =~= lines(text@).take(next + 1));
        next += 1;
    }
    assert(lines(text@).take(next as int) =~= lines(text@));
    found
}

} // verus!
