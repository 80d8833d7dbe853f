//! Text handling shared by the file and shell tools: the same limits, notices and edit
//! semantics wherever a model meets them.

pub use crate::tools::edits::{apply_edits, Edit};

use crate::strings;
use crate::strings::{
    byte_count, bytes_between, chars_of, count, cut, cut_bytes, number, pieces_of, position, same_chars,
    text_between, trimmed_end, utf8_width,
};
use unicode_normalization::UnicodeNormalization;
use vstd::prelude::*;

verus! {

pub const DEFAULT_MAX_LINES: usize = 2000;

pub const DEFAULT_MAX_BYTES: usize = 51200;

#[derive(Clone, Copy, Debug, PartialEq, Eq, Structural)]
pub enum TruncatedBy {
    Lines,
    Bytes,
}

#[derive(Clone, Debug, PartialEq, Eq)]
pub struct Truncation {
    pub content: String,
    pub truncated_by: Option<TruncatedBy>,
    pub total_lines: usize,
    pub total_bytes: usize,
    pub output_lines: usize,
    pub output_bytes: usize,
    pub last_line_partial: bool,
    pub first_line_exceeds_limit: bool,
}

impl Truncation {
    pub fn truncated(&self) -> (truncated: bool)
        ensures
            truncated == (self.truncated_by is Some),
    {
        self.truncated_by.is_some()
    }

    /// Content that fits its limits, kept as it is.
    fn whole(content: &str, lines: usize) -> (result: Self)
        ensures
            result.content@ == content@,
            result.truncated_by is None,
            result.total_lines == lines,
            result.total_bytes == strings::byte_len(content@),
            result.output_lines == lines,
            result.output_bytes == strings::byte_len(content@),
            !result.last_line_partial,
            !result.first_line_exceeds_limit,
    {
        let bytes: usize = byte_count(content);
        Self {
            content: content.to_owned(),
            truncated_by: None,
            total_lines: lines,
            total_bytes: bytes,
            output_lines: lines,
            output_bytes: bytes,
            last_line_partial: false,
            first_line_exceeds_limit: false,
        }
    }
}

// ---- Lines ----

/// A line feed between two lines.
pub open spec fn newline() -> Seq<char> {
    seq!['\n']
}

/// Lines where a trailing newline does not start another line.
pub open spec fn counted_lines(content: Seq<char>) -> Seq<Seq<char>> {
    if content.len() == 0 {
        Seq::empty()
    } else if content.last() == '\n' {
        strings::split_on(content, '\n').drop_last()
    } else {
        strings::split_on(content, '\n')
    }
}

/// Where the lines of `chars` stand, and how many of them count.
fn counted(chars: &Vec<char>) -> (lines: (Vec<(usize, usize)>, usize))
    ensures
        strings::are_bounds(lines.0@, chars@, '\n'),
        lines.1 <= lines.0@.len(),
        counted_lines(chars@) == strings::split_on(chars@, '\n').take(lines.1 as int),
        counted_lines(chars@).len() == lines.1,
        lines.1 == 0 ==> chars@.len() == 0,
{
    let bounds = pieces_of(chars, '\n');
    let mut total: usize = bounds.len();
    if chars.len() == 0 {
        total = 0;
    } else if chars[chars.len() - 1] == '\n' {
        total = total - 1;
        proof {
            let before = chars@.drop_last();
            strings::lemma_split_on_nonempty(before, '\n');
        }
    }
    assert(counted_lines(chars@) =~= strings::split_on(chars@, '\n').take(total as int));
    (bounds, total)
}

/// Lines as they are counted: a trailing newline does not start another line.
pub fn split_lines_for_counting(content: &str) -> (lines: Vec<&str>)
    ensures
        lines@.len() == counted_lines(content@).len(),
        forall|i: int| 0 <= i < lines@.len() ==> (#[trigger] lines@[i])@ == counted_lines(content@)[i],
{
    let chars = chars_of(content);
    let bytes: usize = byte_count(content);
    let (bounds, total) = counted(&chars);
    let mut lines: Vec<&str> = Vec::new();
    let mut rest: &str = content;
    let mut i: usize = 0;
    assert(content@.skip(0) =~= content@);
    while i < total
        invariant
            chars@ == content@,
            strings::byte_len(chars@) <= usize::MAX,
            strings::are_bounds(bounds@, chars@, '\n'),
            i <= total <= bounds@.len(),
            counted_lines(chars@) == strings::split_on(chars@, '\n').take(total as int),
            lines@.len() == i,
            i < total ==> rest@ == content@.skip(bounds@[i as int].0 as int),
            forall|j: int| 0 <= j < i ==> (#[trigger] lines@[j])@ == counted_lines(content@)[j],
        decreases total - i,
    {
        let (start, end) = bounds[i];
        let size: usize = bytes_between(&chars, start, end);
        assert(rest@.take(end - start) =~= content@.subrange(start as int, end as int));
        let (line, after) = cut_bytes(rest, size, Ghost(end - start));
        lines.push(line);
        if i + 1 < total {
            assert(bounds@[i + 1].0 == bounds@[i as int].1 + 1);
            assert(after@[0] == content@[end as int]);
            proof {
                lemma_newline_is_one_byte();
            }
            assert(after@.take(1) =~= newline());
            let (_, next) = cut_bytes(after, 1, Ghost(1));
            rest = next;
            assert(rest@ =~= content@.skip(bounds@[i + 1].0 as int));
        }
        i += 1;
    }
    lines
}

pub proof fn lemma_newline_is_one_byte()
    ensures
        strings::byte_len(newline()) == 1,
{
    let none = Seq::<char>::empty();
    strings::lemma_byte_len_push(none, '\n');
    assert(none.push('\n') =~= newline());
}

// ---- Sizes ----

/// `n / d` to the nearest whole number, halves to the even one.
pub open spec fn half_even(n: nat, d: nat) -> nat
    recommends
        d > 0,
{
    let q = n / d;
    let r = n % d;
    if 2 * r > d || (2 * r == d && q % 2 == 1) {
        q + 1
    } else {
        q
    }
}

/// The gap between neighbouring double-precision numbers at `n`.
pub open spec fn double_gap(n: nat) -> nat
    decreases n,
{
    if n < 0x20_0000_0000_0000 {
        1
    } else {
        2 * double_gap(n / 2)
    }
}

/// The double-precision number nearest to `n`.
pub open spec fn nearest_double(n: nat) -> nat {
    half_even(n, double_gap(n)) * double_gap(n)
}

/// A number of tenths with one decimal place.
pub open spec fn one_decimal(tenths: nat) -> Seq<char> {
    strings::decimal(tenths / 10) + "."@ + strings::decimal(tenths % 10)
}

/// Bytes below a kilobyte, else kilobytes or megabytes with one decimal place.
pub open spec fn size_text(bytes: nat) -> Seq<char> {
    if bytes < 1024 {
        strings::decimal(bytes) + "B"@
    } else if bytes < 1048576 {
        one_decimal(half_even(nearest_double(bytes) * 10, 1024)) + "KB"@
    } else {
        one_decimal(half_even(nearest_double(bytes) * 10, 1048576)) + "MB"@
    }
}

fn round_half_even(n: u128, d: u128) -> (r: u128)
    requires
        0 < d <= 0x1_0000_0000,
    ensures
        r == half_even(n as nat, d as nat),
        r <= n / d + 1,
{
    let q: u128 = n / d;
    let rest: u128 = n % d;
    if rest * 2 > d || (rest * 2 == d && q % 2 == 1) {
        assert(q < u128::MAX) by (nonlinear_arith)
            requires
                q == n / d,
                0 < rest == n % d,
                0 < d,
        ;
        q + 1
    } else {
        q
    }
}

fn gap_at(n: u64) -> (gap: u64)
    ensures
        gap == double_gap(n as nat),
        1 <= gap,
        gap as int * 0x10_0000_0000_0000 <= n || gap == 1,
        gap <= 4096,
    decreases n,
{
    if n < 0x20_0000_0000_0000 {
        1
    } else {
        let half: u64 = gap_at(n / 2);
        2 * half
    }
}

fn tenths_of(bytes: u64, unit: u128) -> (tenths: u64)
    requires
        1024 <= unit <= 1048576,
    ensures
        tenths == half_even(nearest_double(bytes as nat) * 10, unit as nat),
{
    let gap: u128 = gap_at(bytes) as u128;
    let rounded: u128 = round_half_even(bytes as u128, gap);
    assert(rounded <= bytes / gap as u64 + 1);
    assert(rounded * gap <= bytes + gap) by (nonlinear_arith)
        requires
            rounded <= bytes as int / gap as int + 1,
            gap > 0,
    ;
    let nearest: u128 = rounded * gap;
    let tenths: u128 = round_half_even(nearest * 10, unit);
    assert((nearest * 10) / unit as int <= nearest * 10 / 1024) by (nonlinear_arith)
        requires
            unit >= 1024,
            nearest >= 0,
    ;
    tenths as u64
}

fn decimal_text(tenths: u64, unit: &str) -> (text: String)
    ensures
        text@ == one_decimal(tenths as nat) + unit@,
{
    let mut text = number((tenths / 10) as u128);
    let digit = number((tenths % 10) as u128);
    text.append(".");
    text.append(digit.as_str());
    text.append(unit);
    text
}

pub fn format_size(bytes: usize) -> (text: String)
    ensures
        text@ == size_text(bytes as nat),
{
    let size: u64 = bytes as u64;
    if size < 1024 {
        let mut text = number(size as u128);
        text.append("B");
        text
    } else if size < 1048576 {
        decimal_text(tenths_of(size, 1024), "KB")
    } else {
        decimal_text(tenths_of(size, 1048576), "MB")
    }
}

// ---- Truncation ----

/// `count` leading lines fit both limits, and one more would not.
pub open spec fn longest_head(lines: Seq<Seq<char>>, count: nat, max_lines: nat, max_bytes: nat) -> bool {
    &&& count <= lines.len()
    &&& count <= max_lines
    &&& strings::byte_len(strings::join(lines.take(count as int), newline())) <= max_bytes
    &&& count < lines.len() && count < max_lines ==> strings::byte_len(
        strings::join(lines.take(count as int + 1), newline()),
    ) > max_bytes
}

/// `count` trailing lines fit both limits, and one more would not.
pub open spec fn longest_tail(lines: Seq<Seq<char>>, count: nat, max_lines: nat, max_bytes: nat) -> bool {
    &&& count <= lines.len()
    &&& count <= max_lines
    &&& strings::byte_len(strings::join(lines.skip(lines.len() - count), newline())) <= max_bytes
    &&& count < lines.len() && count < max_lines ==> strings::byte_len(
        strings::join(lines.skip(lines.len() - count - 1), newline()),
    ) > max_bytes
}

/// `tail` is as much of the end of `text` as `max_bytes` hold, in whole characters.
pub open spec fn longest_suffix(text: Seq<char>, tail: Seq<char>, max_bytes: nat) -> bool {
    &&& tail.len() <= text.len()
    &&& tail == text.skip(text.len() - tail.len())
    &&& strings::byte_len(tail) <= max_bytes
    &&& tail.len() < text.len() ==> strings::byte_len(text.skip(text.len() - tail.len() - 1)) > max_bytes
}

/// Whether content needs no truncation.
pub open spec fn fits(content: Seq<char>, max_lines: nat, max_bytes: nat) -> bool {
    counted_lines(content).len() <= max_lines && strings::byte_len(content) <= max_bytes
}

/// What stopped at `count` of `total` lines: the byte limit unless the lines ran out first.
pub open spec fn stopped_by(count: nat, total: nat, max_lines: nat) -> TruncatedBy {
    if count < max_lines && count < total {
        TruncatedBy::Bytes
    } else {
        TruncatedBy::Lines
    }
}

/// `result` holds the first complete lines of `content` within both limits.
pub open spec fn is_head(
    content: Seq<char>,
    max_lines: nat,
    max_bytes: nat,
    result: Truncation,
) -> bool {
    let lines = counted_lines(content);
    let count = result.output_lines as nat;
    &&& result.total_lines == lines.len()
    &&& result.total_bytes == strings::byte_len(content)
    &&& result.output_bytes == strings::byte_len(result.content@)
    &&& !result.last_line_partial
    &&& if fits(content, max_lines, max_bytes) {
        &&& result.content@ == content
        &&& result.truncated_by is None
        &&& count == lines.len()
        &&& !result.first_line_exceeds_limit
    } else if strings::byte_len(lines[0]) > max_bytes {
        &&& result.content@ == Seq::<char>::empty()
        &&& result.truncated_by == Some(TruncatedBy::Bytes)
        &&& count == 0
        &&& result.first_line_exceeds_limit
    } else {
        &&& longest_head(lines, count, max_lines, max_bytes)
        &&& result.content@ == strings::join(lines.take(count as int), newline())
        &&& result.truncated_by == Some(stopped_by(count, lines.len(), max_lines))
        &&& !result.first_line_exceeds_limit
    }
}

/// `result` holds the last complete lines of `content` within both limits, or the end of the
/// last line where that line alone is too long.
pub open spec fn is_tail(
    content: Seq<char>,
    max_lines: nat,
    max_bytes: nat,
    result: Truncation,
) -> bool {
    let lines = counted_lines(content);
    let count = result.output_lines as nat;
    &&& result.total_lines == lines.len()
    &&& result.total_bytes == strings::byte_len(content)
    &&& result.output_bytes == strings::byte_len(result.content@)
    &&& !result.first_line_exceeds_limit
    &&& if fits(content, max_lines, max_bytes) {
        &&& result.content@ == content
        &&& result.truncated_by is None
        &&& count == lines.len()
        &&& !result.last_line_partial
    } else if max_lines > 0 && strings::byte_len(lines.last()) > max_bytes {
        &&& longest_suffix(lines.last(), result.content@, max_bytes)
        &&& result.truncated_by == Some(
            if max_lines == 1 {
                TruncatedBy::Lines
            } else {
                TruncatedBy::Bytes
            },
        )
        &&& count == 1
        &&& result.last_line_partial
    } else {
        &&& longest_tail(lines, count, max_lines, max_bytes)
        &&& result.content@ == strings::join(lines.skip(lines.len() - count), newline())
        &&& result.truncated_by == Some(stopped_by(count, lines.len(), max_lines))
        &&& !result.last_line_partial
    }
}

/// The bytes of lines `i` up to `j`, from the bytes of its parts.
proof fn lemma_lines_bytes(bounds: Seq<(usize, usize)>, text: Seq<char>, i: int, j: int)
    requires
        strings::are_bounds(bounds, text, '\n'),
        0 <= i < j <= bounds.len(),
    ensures
        strings::byte_len(strings::join(strings::split_on(text, '\n').subrange(i, j), newline())) <= strings::byte_len(text),
        j > i + 1 ==> strings::byte_len(strings::join(strings::split_on(text, '\n').subrange(i, j), newline())) == strings::byte_len(
            strings::join(strings::split_on(text, '\n').subrange(i, j - 1), newline()),
        ) + 1 + strings::byte_len(strings::split_on(text, '\n')[j - 1]),
        j > i + 1 ==> strings::byte_len(strings::join(strings::split_on(text, '\n').subrange(i, j), newline())) == strings::byte_len(
            strings::join(strings::split_on(text, '\n').subrange(i + 1, j), newline()),
        ) + 1 + strings::byte_len(strings::split_on(text, '\n')[i]),
        j == i + 1 ==> strings::join(strings::split_on(text, '\n').subrange(i, j), newline()) == strings::split_on(
            text,
            '\n',
        )[i],
{
    let all = text.subrange(bounds[i].0 as int, bounds[j - 1].1 as int);
    strings::lemma_join_bounds(bounds, text, '\n', i, j);
    strings::lemma_byte_len_subrange(text, bounds[i].0 as int, bounds[j - 1].1 as int);
    lemma_newline_is_one_byte();
    if j > i + 1 {
        strings::lemma_join_bounds(bounds, text, '\n', i, j - 1);
        strings::lemma_join_bounds(bounds, text, '\n', i + 1, j);
        let head = text.subrange(bounds[i].0 as int, bounds[j - 2].1 as int);
        let last = text.subrange(bounds[j - 1].0 as int, bounds[j - 1].1 as int);
        assert(bounds[j - 1].0 == bounds[j - 2].1 + 1);
        assert(all =~= head + newline() + last);
        strings::lemma_byte_len_concat(head + newline(), last);
        strings::lemma_byte_len_concat(head, newline());
        let first = text.subrange(bounds[i].0 as int, bounds[i].1 as int);
        let rest = text.subrange(bounds[i + 1].0 as int, bounds[j - 1].1 as int);
        assert(bounds[i + 1].0 == bounds[i].1 + 1);
        assert(all =~= first + newline() + rest);
        strings::lemma_byte_len_concat(first + newline(), rest);
        strings::lemma_byte_len_concat(first, newline());
    } else {
        assert(strings::split_on(text, '\n').subrange(i, j) =~= seq![strings::split_on(text, '\n')[i]]);
    }
}

/// Keeps the first complete lines within both limits. Never returns a partial line.
pub fn truncate_head(content: &str, max_lines: usize, max_bytes: usize) -> (result: Truncation)
    ensures
        is_head(content@, max_lines as nat, max_bytes as nat, result),
{
    let chars = chars_of(content);
    let bytes: usize = byte_count(content);
    let (bounds, total) = counted(&chars);
    let ghost lines = counted_lines(content@);
    if total <= max_lines && bytes <= max_bytes {
        return Truncation::whole(content, total);
    }
    assert(strings::byte_len(Seq::<char>::empty()) == 0);
    assert(strings::split_on(chars@, '\n').subrange(0, 1) =~= lines.take(1));
    let first: usize = bytes_between(&chars, bounds[0].0, bounds[0].1);
    if first > max_bytes {
        return Truncation {
            content: String::new(),
            truncated_by: Some(TruncatedBy::Bytes),
            total_lines: total,
            total_bytes: bytes,
            output_lines: 0,
            output_bytes: 0,
            last_line_partial: false,
            first_line_exceeds_limit: true,
        };
    }
    let mut kept: usize = 0;
    let mut used: usize = 0;
    assert(lines.take(0) =~= Seq::<Seq<char>>::empty());
    while kept < total && kept < max_lines
        invariant_except_break
            kept <= total,
            kept <= max_lines,
            used == strings::byte_len(strings::join(lines.take(kept as int), newline())),
            used <= max_bytes,
        invariant
            chars@ == content@,
            strings::are_bounds(bounds@, chars@, '\n'),
            total <= bounds@.len(),
            lines == counted_lines(content@),
            lines == strings::split_on(chars@, '\n').take(total as int),
            lines.len() == total,
            bytes == strings::byte_len(chars@),
        ensures
            longest_head(lines, kept as nat, max_lines as nat, max_bytes as nat),
            used == strings::byte_len(strings::join(lines.take(kept as int), newline())),
        decreases total - kept,
    {
        let size: usize = bytes_between(&chars, bounds[kept].0, bounds[kept].1);
        proof {
            lemma_lines_bytes(bounds@, chars@, 0, kept + 1);
            assert(strings::split_on(chars@, '\n').subrange(0, kept + 1) =~= lines.take(kept + 1));
            assert(strings::split_on(chars@, '\n').subrange(0, kept as int) =~= lines.take(kept as int));
        }
        let cost: usize = if kept > 0 {
            size + 1
        } else {
            size
        };
        if used + cost > max_bytes {
            break;
        }
        used += cost;
        kept += 1;
    }
    let by = if kept < max_lines && kept < total {
        TruncatedBy::Bytes
    } else {
        TruncatedBy::Lines
    };
    let end: usize = if kept == 0 {
        0
    } else {
        bounds[kept - 1].1
    };
    let output = text_between(&chars, 0, end);
    proof {
        assert(strings::split_on(chars@, '\n').subrange(0, kept as int) =~= lines.take(kept as int));
        if kept > 0 {
            strings::lemma_join_bounds(bounds@, chars@, '\n', 0, kept as int);
        } else {
            assert(output@ =~= Seq::<char>::empty());
        }
    }
    Truncation {
        content: output,
        truncated_by: Some(by),
        total_lines: total,
        total_bytes: bytes,
        output_lines: kept,
        output_bytes: used,
        last_line_partial: false,
        first_line_exceeds_limit: false,
    }
}

/// Where the longest end of `chars[from..to]` that `max_bytes` hold begins.
fn tail_within_bytes(chars: &Vec<char>, from: usize, to: usize, max_bytes: usize) -> (start: usize)
    requires
        from <= to <= chars@.len(),
        strings::byte_len(chars@) <= usize::MAX,
    ensures
        from <= start <= to,
        longest_suffix(
            chars@.subrange(from as int, to as int),
            chars@.subrange(start as int, to as int),
            max_bytes as nat,
        ),
{
    let ghost text = chars@.subrange(from as int, to as int);
    let mut start: usize = to;
    let mut used: usize = 0;
    assert(chars@.subrange(to as int, to as int) =~= Seq::<char>::empty());
    while start > from
        invariant_except_break
            used == strings::byte_len(chars@.subrange(start as int, to as int)),
            used <= max_bytes,
        invariant
            from <= start <= to <= chars@.len(),
            strings::byte_len(chars@) <= usize::MAX,
            text == chars@.subrange(from as int, to as int),
        ensures
            strings::byte_len(chars@.subrange(start as int, to as int)) <= max_bytes,
            start > from ==> strings::byte_len(chars@.subrange(start - 1, to as int)) > max_bytes,
        decreases start,
    {
        let width: usize = utf8_width(chars[start - 1]);
        proof {
            let c = chars@[start - 1];
            let one = seq![c];
            let longer = chars@.subrange(start - 1, to as int);
            assert(longer =~= one + chars@.subrange(start as int, to as int));
            strings::lemma_byte_len_concat(one, chars@.subrange(start as int, to as int));
            strings::lemma_byte_len_push(Seq::<char>::empty(), c);
            assert(Seq::<char>::empty().push(c) =~= one);
            strings::lemma_byte_len_subrange(chars@, start - 1, to as int);
        }
        if used + width > max_bytes {
            break;
        }
        used += width;
        start -= 1;
    }
    proof {
        let tail = chars@.subrange(start as int, to as int);
        assert(tail =~= text.skip(text.len() - tail.len()));
        if start > from {
            assert(chars@.subrange(start - 1, to as int) =~= text.skip(text.len() - tail.len() - 1));
        }
    }
    start
}

/// Keeps the last complete lines within both limits. When the final line alone exceeds the
/// byte limit, its end is returned and `last_line_partial` is set.
pub fn truncate_tail(content: &str, max_lines: usize, max_bytes: usize) -> (result: Truncation)
    ensures
        is_tail(content@, max_lines as nat, max_bytes as nat, result),
{
    let chars = chars_of(content);
    let bytes: usize = byte_count(content);
    let (bounds, total) = counted(&chars);
    let ghost lines = counted_lines(content@);
    if total <= max_lines && bytes <= max_bytes {
        return Truncation::whole(content, total);
    }
    assert(strings::byte_len(Seq::<char>::empty()) == 0);
    let end: usize = bounds[total - 1].1;
    let last: usize = bytes_between(&chars, bounds[total - 1].0, end);
    assert(lines.last() == strings::split_on(chars@, '\n')[total - 1]);
    if max_lines > 0 && last > max_bytes {
        let start: usize = tail_within_bytes(&chars, bounds[total - 1].0, end, max_bytes);
        let tail = text_between(&chars, start, end);
        let by = if max_lines == 1 {
            TruncatedBy::Lines
        } else {
            TruncatedBy::Bytes
        };
        let used: usize = bytes_between(&chars, start, end);
        return Truncation {
            content: tail,
            truncated_by: Some(by),
            total_lines: total,
            total_bytes: bytes,
            output_lines: 1,
            output_bytes: used,
            last_line_partial: true,
            first_line_exceeds_limit: false,
        };
    }
    let mut kept: usize = 0;
    let mut used: usize = 0;
    assert(lines.skip(lines.len() as int) =~= Seq::<Seq<char>>::empty());
    while kept < total && kept < max_lines
        invariant_except_break
            kept <= total,
            kept <= max_lines,
            used == strings::byte_len(strings::join(lines.skip(total - kept), newline())),
            used <= max_bytes,
        invariant
            chars@ == content@,
            strings::are_bounds(bounds@, chars@, '\n'),
            0 < total <= bounds@.len(),
            lines == counted_lines(content@),
            lines == strings::split_on(chars@, '\n').take(total as int),
            lines.len() == total,
            bytes == strings::byte_len(chars@),
        ensures
            longest_tail(lines, kept as nat, max_lines as nat, max_bytes as nat),
            used == strings::byte_len(strings::join(lines.skip(total - kept), newline())),
        decreases total - kept,
    {
        let at: usize = total - kept - 1;
        let size: usize = bytes_between(&chars, bounds[at].0, bounds[at].1);
        proof {
            lemma_lines_bytes(bounds@, chars@, at as int, total as int);
            assert(strings::split_on(chars@, '\n').subrange(at as int, total as int) =~= lines.skip(
                total - kept - 1,
            ));
            assert(strings::split_on(chars@, '\n').subrange(at + 1, total as int) =~= lines.skip(
                total - kept,
            ));
        }
        let cost: usize = if kept > 0 {
            size + 1
        } else {
            size
        };
        if used + cost > max_bytes {
            break;
        }
        used += cost;
        kept += 1;
    }
    let by = if kept < max_lines && kept < total {
        TruncatedBy::Bytes
    } else {
        TruncatedBy::Lines
    };
    let start: usize = if kept == 0 {
        end
    } else {
        bounds[total - kept].0
    };
    proof {
        assert(strings::split_on(chars@, '\n').subrange(total - kept, total as int) =~= lines.skip(
            total - kept,
        ));
        if kept > 0 {
            strings::lemma_join_bounds(bounds@, chars@, '\n', total - kept, total as int);
        }
    }
    let output = text_between(&chars, start, end);
    if kept == 0 {
        assert(output@ =~= Seq::<char>::empty());
    }
    Truncation {
        content: output,
        truncated_by: Some(by),
        total_lines: total,
        total_bytes: bytes,
        output_lines: kept,
        output_bytes: used,
        last_line_partial: false,
        first_line_exceeds_limit: false,
    }
}

/// More leading lines take more bytes.
proof fn lemma_more_lines(lines: Seq<Seq<char>>, fewer: int, more: int)
    requires
        0 <= fewer <= more <= lines.len(),
    ensures
        strings::byte_len(strings::join(lines.take(fewer), newline())) <= strings::byte_len(
            strings::join(lines.take(more), newline()),
        ),
        strings::byte_len(strings::join(lines.skip(lines.len() - fewer), newline()))
            <= strings::byte_len(strings::join(lines.skip(lines.len() - more), newline())),
{
    if 0 < fewer < more {
        let head = lines.take(more);
        strings::lemma_join_parts(head, newline(), fewer);
        assert(head.take(fewer) =~= lines.take(fewer));
        let first = strings::join(head.take(fewer), newline());
        let rest = strings::join(head.skip(fewer), newline());
        strings::lemma_byte_len_concat(first + newline(), rest);
        strings::lemma_byte_len_concat(first, newline());
        let tail = lines.skip(lines.len() - more);
        strings::lemma_join_parts(tail, newline(), more - fewer);
        assert(tail.skip(more - fewer) =~= lines.skip(lines.len() - fewer));
        let before = strings::join(tail.take(more - fewer), newline());
        let last = strings::join(tail.skip(more - fewer), newline());
        strings::lemma_byte_len_concat(before + newline(), last);
    } else if fewer == 0 {
        assert(strings::join(lines.take(0), newline()) =~= Seq::<char>::empty());
        assert(strings::join(lines.skip(lines.len() as int), newline()) =~= Seq::<char>::empty());
        assert(strings::byte_len(Seq::<char>::empty()) == 0);
    }
}

/// The lines of a text, joined, and with a line feed where the text ends in one, are the text.
proof fn lemma_lines_joined(content: Seq<char>)
    ensures
        content == strings::join(counted_lines(content), newline()) || content == strings::join(
            counted_lines(content),
            newline(),
        ) + newline(),
{
    strings::lemma_join_split(content, '\n');
    strings::lemma_split_on_nonempty(content, '\n');
    let pieces = strings::split_on(content, '\n');
    let lines = counted_lines(content);
    if lines != pieces && lines.len() > 0 {
        strings::lemma_join_parts(pieces, newline(), lines.len() as int);
        assert(pieces.take(lines.len() as int) =~= lines);
        assert(pieces.skip(lines.len() as int) =~= seq![Seq::<char>::empty()]);
        assert(strings::join(seq![Seq::<char>::empty()], newline()) =~= Seq::<char>::empty());
        assert(content =~= strings::join(lines, newline()) + newline());
    }
}

/// What the head of a text keeps is a beginning of the text within both limits.
pub proof fn law_head_is_a_beginning_within_limits(
    content: Seq<char>,
    max_lines: nat,
    max_bytes: nat,
    result: Truncation,
)
    requires
        is_head(content, max_lines, max_bytes, result),
    ensures
        result.output_lines <= max_lines,
        result.output_bytes <= max_bytes,
        result.content@.len() <= content.len(),
        result.content@ == content.take(result.content@.len() as int),
{
    let lines = counted_lines(content);
    let count = result.output_lines as int;
    lemma_lines_joined(content);
    assert(strings::byte_len(Seq::<char>::empty()) == 0);
    assert(content.take(content.len() as int) =~= content);
    assert(content.take(0) =~= Seq::<char>::empty());
    let kept = strings::join(lines.take(count), newline());
    let all = strings::join(lines, newline());
    if 0 < count < lines.len() {
        strings::lemma_join_parts(lines, newline(), count);
        assert(all.take(kept.len() as int) =~= kept);
        assert(content.take(kept.len() as int) =~= kept);
    } else if count == 0 {
        assert(lines.take(0) =~= Seq::<Seq<char>>::empty());
    } else {
        assert(lines.take(count) =~= lines);
        assert(content.take(kept.len() as int) =~= kept);
    }
}

/// What the tail of a text keeps is an end of the text, up to a line feed at the very end,
/// within both limits.
pub proof fn law_tail_is_an_end_within_limits(
    content: Seq<char>,
    max_lines: nat,
    max_bytes: nat,
    result: Truncation,
)
    requires
        is_tail(content, max_lines, max_bytes, result),
    ensures
        result.output_lines <= max_lines,
        result.output_bytes <= max_bytes,
        exists|before: Seq<char>|
            content == before + result.content@ || content == #[trigger] (before
                + result.content@) + newline(),
{
    let lines = counted_lines(content);
    let count = result.output_lines as int;
    let kept = result.content@;
    lemma_lines_joined(content);
    if content.len() > 0 {
        strings::lemma_split_on_nonempty(content, '\n');
        strings::lemma_split_on_nonempty(content.drop_last(), '\n');
        assert(lines.len() > 0);
    } else {
        assert(content =~= Seq::<char>::empty());
    }
    assert(strings::byte_len(Seq::<char>::empty()) == 0);
    let all = strings::join(lines, newline());
    let none = Seq::<char>::empty();
    if fits(content, max_lines, max_bytes) {
        assert(content =~= none + kept);
    } else if max_lines > 0 && strings::byte_len(lines.last()) > max_bytes {
        let last = lines.last();
        let cut = last.take(last.len() - kept.len());
        assert(last =~= cut + kept);
        if lines.len() == 1 {
            assert(lines =~= seq![last]);
            assert(all == last);
            assert(all =~= cut + kept);
        } else {
            strings::lemma_join_parts(lines, newline(), lines.len() - 1);
            assert(lines.skip(lines.len() - 1) =~= seq![last]);
            assert(strings::join(seq![last], newline()) == last);
            let head = strings::join(lines.take(lines.len() - 1), newline()) + newline() + cut;
            assert(all =~= head + kept);
        }
    } else if count == 0 {
        assert(lines.skip(lines.len() as int) =~= Seq::<Seq<char>>::empty());
        assert(content =~= content + kept);
    } else if count == lines.len() {
        assert(lines.skip(0) =~= lines);
        assert(all =~= none + kept);
    } else {
        strings::lemma_join_parts(lines, newline(), lines.len() - count);
        let head = strings::join(lines.take(lines.len() - count), newline()) + newline();
        assert(all =~= head + kept);
    }
}

/// The limits decide how much of the beginning is kept: no two results differ.
pub proof fn law_head_is_unique(
    content: Seq<char>,
    max_lines: nat,
    max_bytes: nat,
    one: Truncation,
    other: Truncation,
)
    requires
        is_head(content, max_lines, max_bytes, one),
        is_head(content, max_lines, max_bytes, other),
    ensures
        one.content@ == other.content@,
        one.truncated_by == other.truncated_by,
        one.output_lines == other.output_lines,
        one.first_line_exceeds_limit == other.first_line_exceeds_limit,
{
    let lines = counted_lines(content);
    if one.output_lines < other.output_lines {
        lemma_more_lines(lines, one.output_lines + 1, other.output_lines as int);
    }
    if other.output_lines < one.output_lines {
        lemma_more_lines(lines, other.output_lines + 1, one.output_lines as int);
    }
}

/// The limits decide how much of the end is kept: no two results differ.
pub proof fn law_tail_is_unique(
    content: Seq<char>,
    max_lines: nat,
    max_bytes: nat,
    one: Truncation,
    other: Truncation,
)
    requires
        is_tail(content, max_lines, max_bytes, one),
        is_tail(content, max_lines, max_bytes, other),
    ensures
        one.content@ == other.content@,
        one.truncated_by == other.truncated_by,
        one.output_lines == other.output_lines,
        one.last_line_partial == other.last_line_partial,
{
    let lines = counted_lines(content);
    if !fits(content, max_lines, max_bytes) && max_lines > 0 && strings::byte_len(lines.last())
        > max_bytes {
        lemma_longer_suffix(lines.last(), one.content@, other.content@, max_bytes);
    } else {
        if one.output_lines < other.output_lines {
            lemma_more_lines(lines, one.output_lines + 1, other.output_lines as int);
        }
        if other.output_lines < one.output_lines {
            lemma_more_lines(lines, other.output_lines + 1, one.output_lines as int);
        }
    }
}

proof fn lemma_longer_suffix(text: Seq<char>, a: Seq<char>, b: Seq<char>, max_bytes: nat)
    requires
        longest_suffix(text, a, max_bytes),
        longest_suffix(text, b, max_bytes),
    ensures
        a == b,
{
    if a.len() < b.len() {
        let longer = text.skip(text.len() - a.len() - 1);
        assert(longer =~= b.subrange(b.len() - a.len() - 1, b.len() as int));
        strings::lemma_byte_len_subrange(b, b.len() - a.len() - 1, b.len() as int);
    }
    if b.len() < a.len() {
        let longer = text.skip(text.len() - b.len() - 1);
        assert(longer =~= a.subrange(a.len() - b.len() - 1, a.len() as int));
        strings::lemma_byte_len_subrange(a, a.len() - b.len() - 1, a.len() as int);
    }
}

/// The lines of joined lines, where none holds a line feed.
proof fn lemma_counted_of_joined(lines: Seq<Seq<char>>)
    requires
        lines.len() > 0,
        forall|i: int| #![trigger lines[i]] 0 <= i < lines.len() ==> !lines[i].contains('\n'),
    ensures
        counted_lines(strings::join(lines, newline())) == if lines.last().len() == 0 {
            lines.drop_last()
        } else {
            lines
        },
{
    let content = strings::join(lines, newline());
    strings::lemma_split_join(lines, '\n');
    let last = lines.last();
    assert(last == lines[lines.len() - 1]);
    if lines.len() == 1 {
        assert(content == last);
        if last.len() == 0 {
            assert(lines.drop_last() =~= Seq::<Seq<char>>::empty());
        } else {
            assert(last.contains(content.last()));
        }
    } else {
        let before = strings::join(lines.drop_last(), newline());
        assert(content == before + newline() + last);
        if last.len() == 0 {
            assert(content.last() == '\n');
        } else {
            assert(content.last() == last.last());
            assert(last.contains(last.last()));
        }
    }
}

/// A line takes no more bytes than all of them.
pub proof fn lemma_line_within(lines: Seq<Seq<char>>, i: int)
    requires
        0 <= i < lines.len(),
    ensures
        strings::byte_len(lines[i]) <= strings::byte_len(strings::join(lines, newline())),
    decreases lines.len(),
{
    let rest = lines.drop_last();
    if lines.len() > 1 {
        let before = strings::join(rest, newline());
        strings::lemma_byte_len_concat(before + newline(), lines.last());
        strings::lemma_byte_len_concat(before, newline());
        if i < rest.len() {
            assert(rest[i] == lines[i]);
            lemma_line_within(rest, i);
        }
    }
}

/// The head of lines keeps as many whole lines as fit both limits, and none where the first line
/// alone is too long.
pub proof fn law_head_keeps_the_most_lines(
    lines: Seq<Seq<char>>,
    max_lines: nat,
    max_bytes: nat,
    result: Truncation,
)
    requires
        lines.len() > 0,
        forall|i: int| #![trigger lines[i]] 0 <= i < lines.len() ==> !lines[i].contains('\n'),
        is_head(strings::join(lines, seq!['\n']), max_lines, max_bytes, result),
    ensures
        ({
            let content = strings::join(lines, seq!['\n']);
            let kept = result.output_lines as int;
            if strings::byte_len(lines[0]) > max_bytes {
                result.first_line_exceeds_limit && result.truncated_by == Some(TruncatedBy::Bytes)
                    && result.content@ == Seq::<char>::empty()
            } else if strings::byte_len(content) <= max_bytes && (lines.len() <= max_lines || (
            lines.len() == max_lines + 1 && lines.last().len() == 0)) {
                !result.first_line_exceeds_limit && result.truncated_by is None && result.content@
                    == content
            } else {
                &&& !result.first_line_exceeds_limit
                &&& 0 <= kept <= max_lines && kept < lines.len()
                &&& max_lines > 0 ==> kept > 0
                &&& result.content@ == strings::join(lines.take(kept), seq!['\n'])
                &&& strings::byte_len(result.content@) <= max_bytes
                &&& kept == max_lines || strings::byte_len(
                    strings::join(lines.take(kept + 1), seq!['\n']),
                ) > max_bytes
                &&& result.truncated_by == Some(
                    if kept < max_lines && (kept + 1 < lines.len() || lines.last().len() > 0) {
                        TruncatedBy::Bytes
                    } else {
                        TruncatedBy::Lines
                    },
                )
            }
        }),
{
    let content = strings::join(lines, seq!['\n']);
    let counted = counted_lines(content);
    let kept = result.output_lines as int;
    assert(newline() == seq!['\n']);
    lemma_counted_of_joined(lines);
    lemma_line_within(lines, 0);
    assert(strings::byte_len(Seq::<char>::empty()) == 0);
    assert(lines.last() == lines[lines.len() - 1]);
    if lines.len() == 1 && lines[0].len() == 0 {
        assert(lines[0] =~= Seq::<char>::empty());
        assert(content == lines[0]);
    } else {
        assert(counted[0] == lines[0]);
    }
    if strings::byte_len(lines[0]) <= max_bytes && !fits(content, max_lines, max_bytes) {
        assert(counted.take(kept) =~= lines.take(kept));
        if kept < counted.len() {
            assert(counted.take(kept + 1) =~= lines.take(kept + 1));
        } else {
            if counted.len() == lines.len() {
                assert(counted =~= lines);
                assert(lines.take(kept) =~= lines);
            } else {
                assert(lines.take(kept + 1) =~= lines);
            }
        }
        if max_lines > 0 && kept == 0 {
            assert(lines.take(1) =~= seq![lines[0]]);
            assert(strings::join(seq![lines[0]], newline()) == lines[0]);
        }
    }
}

/// The tail of lines keeps as many whole lines as fit both limits, or the end of the last line
/// where that line alone is too long. A line feed at the very end of the text changes nothing.
pub proof fn law_tail_keeps_the_most_lines(
    lines: Seq<Seq<char>>,
    ended: bool,
    max_lines: nat,
    max_bytes: nat,
    result: Truncation,
)
    requires
        lines.len() > 0,
        forall|i: int| #![trigger lines[i]] 0 <= i < lines.len() ==> !lines[i].contains('\n'),
        ended || lines.last().len() > 0,
        is_tail(
            strings::join(lines, seq!['\n']) + if ended {
                seq!['\n']
            } else {
                seq![]
            },
            max_lines,
            max_bytes,
            result,
        ),
    ensures
        result.total_lines == lines.len(),
        ({
            let content = strings::join(lines, seq!['\n']) + if ended {
                seq!['\n']
            } else {
                seq![]
            };
            let kept = result.output_lines as int;
            let from = lines.len() - kept;
            let said = result.content@;
            if max_lines > 0 && strings::byte_len(lines.last()) > max_bytes {
                &&& result.last_line_partial && kept == 1
                &&& said.len() < lines.last().len()
                &&& said == lines.last().skip(lines.last().len() - said.len())
                &&& strings::byte_len(said) <= max_bytes
                &&& strings::byte_len(lines.last().skip(lines.last().len() - said.len() - 1))
                    > max_bytes
                &&& result.truncated_by is Some
            } else if lines.len() <= max_lines && strings::byte_len(content) <= max_bytes {
                !result.last_line_partial && result.truncated_by is None && said == content && kept
                    == lines.len()
            } else {
                &&& !result.last_line_partial
                &&& 0 <= kept <= max_lines && kept <= lines.len()
                &&& said == strings::join(lines.skip(from), seq!['\n'])
                &&& strings::byte_len(said) <= max_bytes
                &&& from == 0 || kept == max_lines || strings::byte_len(
                    strings::join(lines.skip(from - 1), seq!['\n']),
                ) > max_bytes
                &&& result.truncated_by == Some(
                    if kept < max_lines && from > 0 {
                        TruncatedBy::Bytes
                    } else {
                        TruncatedBy::Lines
                    },
                )
            }
        }),
{
    let joined = strings::join(lines, seq!['\n']);
    let content = joined + if ended {
        seq!['\n']
    } else {
        seq![]
    };
    assert(newline() == seq!['\n']);
    let none = Seq::<char>::empty();
    let longer = lines.push(none);
    if ended {
        assert(longer.drop_last() =~= lines);
        assert(content =~= strings::join(longer, newline()));
        assert forall|i: int| #![trigger longer[i]] 0 <= i < longer.len() implies !longer[i].contains(
            '\n',
        ) by {
            if i < lines.len() {
                assert(longer[i] == lines[i]);
            }
        }
        lemma_counted_of_joined(longer);
    } else {
        assert(content =~= joined);
        lemma_counted_of_joined(lines);
    }
    assert(counted_lines(content) == lines);
    lemma_line_within(lines, lines.len() - 1);
    strings::lemma_byte_len_concat(joined, newline());
    assert(strings::byte_len(none) == 0);
    if max_lines > 0 && strings::byte_len(lines.last()) > max_bytes {
        assert(!fits(content, max_lines, max_bytes));
        if result.content@.len() == lines.last().len() {
            assert(lines.last().skip(0) =~= lines.last());
        }
    }
}

proof fn lemma_half_even(n: nat, d: nat)
    requires
        d > 0,
    ensures
        2 * (half_even(n, d) * d - n) <= d,
        2 * (n - half_even(n, d) * d) <= d,
        d == 1 ==> half_even(n, d) == n,
{
    let q = n / d;
    let r = n % d;
    assert(n == q * d + r && 0 <= r < d) by (nonlinear_arith)
        requires
            d > 0,
            q == n / d,
            r == n % d,
    ;
    assert((q + 1) * d == q * d + d) by (nonlinear_arith);
    if d == 1 {
        assert(q * d == q);
    }
}

/// A size is told in bytes below a kilobyte, in kilobytes below a megabyte and else in megabytes,
/// to the nearest tenth.
pub proof fn law_sizes_are_told_to_a_tenth(bytes: nat)
    requires
        bytes < 0x20_0000_0000_0000,
    ensures
        bytes < 1024 ==> size_text(bytes) == strings::decimal(bytes) + "B"@,
        1024 <= bytes < 1024 * 1024 ==> exists|tenths: nat|
            size_text(bytes) == #[trigger] strings::decimal(tenths / 10) + "."@ + strings::decimal(
                tenths % 10,
            ) + "KB"@ && -512 <= tenths * 1024 - bytes * 10 <= 512,
        1024 * 1024 <= bytes ==> exists|tenths: nat|
            size_text(bytes) == #[trigger] strings::decimal(tenths / 10) + "."@ + strings::decimal(
                tenths % 10,
            ) + "MB"@ && -524288 <= tenths * 1048576 - bytes * 10 <= 524288,
{
    lemma_half_even(bytes, 1);
    assert(nearest_double(bytes) == bytes);
    lemma_half_even(bytes * 10, 1024);
    lemma_half_even(bytes * 10, 1048576);
    if 1024 <= bytes < 1024 * 1024 {
        let tenths = half_even(bytes * 10, 1024);
        assert(size_text(bytes) == strings::decimal(tenths / 10) + "."@ + strings::decimal(
            tenths % 10,
        ) + "KB"@);
    } else if bytes >= 1024 * 1024 {
        let tenths = half_even(bytes * 10, 1048576);
        assert(size_text(bytes) == strings::decimal(tenths / 10) + "."@ + strings::decimal(
            tenths % 10,
        ) + "MB"@);
    }
}

/// Lines that differ only where both are too long to be shown.
pub open spec fn alike(kept: Seq<Seq<char>>, lines: Seq<Seq<char>>, max_bytes: nat) -> bool {
    &&& kept.len() <= lines.len()
    &&& forall|i: int| #![trigger kept[i]]
        0 <= i < kept.len() ==> kept[i] == lines[i] || (strings::byte_len(kept[i]) > max_bytes
            && strings::byte_len(lines[i]) > max_bytes)
}

/// Keeping only the beginning of the lines, and only the beginning of lines that are too long to
/// be shown, shows the same head as all of them, where what is kept is more than is shown.
pub proof fn law_head_needs_only_the_beginning(
    kept: Seq<Seq<char>>,
    lines: Seq<Seq<char>>,
    max_lines: nat,
    max_bytes: nat,
    part: Truncation,
    whole: Truncation,
)
    requires
        alike(kept, lines, max_bytes),
        kept.len() < lines.len() ==> kept.len() > max_lines + 1 || strings::byte_len(
            strings::join(kept, newline()),
        ) > max_bytes + 1,
        forall|i: int| #![trigger kept[i]] 0 <= i < kept.len() ==> !kept[i].contains('\n'),
        forall|i: int| #![trigger lines[i]] 0 <= i < lines.len() ==> !lines[i].contains('\n'),
        is_head(strings::join(kept, newline()), max_lines, max_bytes, part),
        is_head(strings::join(lines, newline()), max_lines, max_bytes, whole),
    ensures
        part.content@ == whole.content@,
        part.truncated_by == whole.truncated_by,
        part.output_lines == whole.output_lines,
        part.first_line_exceeds_limit == whole.first_line_exceeds_limit,
{
    let a = strings::join(kept, newline());
    let b = strings::join(lines, newline());
    let k = kept.len() as int;
    let n = lines.len() as int;
    assert(strings::byte_len(Seq::<char>::empty()) == 0);
    if k == 0 {
        assert(a =~= Seq::<char>::empty());
        assert(n == 0);
        assert(kept =~= lines);
    }
    if kept == lines {
        law_head_is_unique(a, max_lines, max_bytes, part, whole);
    } else {
        lemma_newline_is_one_byte();
        lemma_counted_of_joined(kept);
        lemma_counted_of_joined(lines);
        lemma_lines_joined(a);
        let ca = counted_lines(a);
        let cb = counted_lines(b);
        strings::lemma_byte_len_concat(strings::join(ca, newline()), newline());
        // A line that was cut, where k == n.
        let cut = if exists|i: int| 0 <= i < k && #[trigger] kept[i] != lines[i] {
            choose|i: int| 0 <= i < k && #[trigger] kept[i] != lines[i]
        } else {
            -1int
        };
        if cut >= 0 {
            lemma_line_within(kept, cut);
            lemma_line_within(lines, cut);
        } else {
            assert(kept =~= lines.take(k));
            assert(k < n) by {
                if k == n {
                    assert(lines.take(k) =~= lines);
                }
            }
            strings::lemma_join_parts(lines, newline(), k);
            let rest = strings::join(lines.skip(k), newline());
            strings::lemma_byte_len_concat(a + newline(), rest);
            strings::lemma_byte_len_concat(a, newline());
        }
        assert(!fits(a, max_lines, max_bytes));
        assert(!fits(b, max_lines, max_bytes));
        assert(kept.last() == kept[k - 1]);
        assert(lines.last() == lines[n - 1]);
        assert(ca.len() > 0) by {
            if ca.len() == 0 {
                assert(k == 1 && kept[0].len() == 0);
                assert(kept[0] =~= Seq::<char>::empty());
                assert(a == kept[0]);
            }
        }
        assert(ca[0] == kept[0]);
        assert(cb.len() > 0) by {
            if cb.len() == 0 {
                assert(n == 1 && lines[0].len() == 0);
                assert(lines[0] =~= Seq::<char>::empty());
                assert(kept[0] == lines[0]);
                assert(kept =~= lines);
            }
        }
        assert(cb[0] == lines[0]);
        assert(kept[0] == lines[0] || strings::byte_len(kept[0]) > max_bytes);
        if strings::byte_len(ca[0]) <= max_bytes {
            let c = part.output_lines as int;
            let head = ca.take(c);
            assert forall|j: int| 0 <= j < c implies #[trigger] ca[j] == lines[j] by {
                assert(head[j] == ca[j]);
                lemma_line_within(head, j);
                assert(kept[j] == ca[j]);
            }
            assert(c < ca.len()) by {
                if c == ca.len() {
                    assert(head =~= ca);
                    assert(strings::byte_len(a) <= max_bytes + 1);
                    assert(k <= ca.len() + 1);
                    assert(k == n);
                    assert forall|j: int| 0 <= j < k implies kept[j] == lines[j] by {
                        if j < c {
                            assert(ca[j] == lines[j]);
                        } else {
                            assert(kept[j].len() == 0);
                            assert(kept[j] =~= Seq::<char>::empty());
                        }
                    }
                    assert(kept =~= lines);
                }
            }
            assert(kept[c] == ca[c]);
            assert(c < cb.len()) by {
                if c >= cb.len() {
                    assert(c == n - 1 && k == n);
                    assert(lines[c].len() == 0);
                    assert(lines[c] =~= Seq::<char>::empty());
                    assert(kept[c].len() > 0);
                }
            }
            assert(cb[c] == lines[c]);
            assert forall|j: int| 0 <= j < c implies #[trigger] cb[j] == ca[j] by {
                assert(ca[j] == lines[j]);
            }
            assert(cb.take(c) =~= head);
            if c < max_lines {
                if kept[c] == lines[c] {
                    assert(cb.take(c + 1) =~= ca.take(c + 1));
                } else {
                    assert(cb.take(c + 1)[c] == lines[c]);
                    lemma_line_within(cb.take(c + 1), c);
                }
            }
            assert(longest_head(cb, c as nat, max_lines, max_bytes));
            let d = whole.output_lines as int;
            if c < d {
                lemma_more_lines(cb, c + 1, d);
            }
            if d < c {
                lemma_more_lines(cb, d + 1, c);
            }
        }
    }
}

/// The lines of a text that goes on after a line feed.
proof fn lemma_counted_concat(first: Seq<char>, second: Seq<char>)
    requires
        second.len() > 0,
    ensures
        counted_lines(first.push('\n') + second) == strings::split_on(first, '\n') + counted_lines(
            second,
        ),
{
    let all = first.push('\n') + second;
    strings::lemma_split_concat(first, second, '\n');
    strings::lemma_split_on_nonempty(second, '\n');
    let before = strings::split_on(first, '\n');
    let pieces = strings::split_on(second, '\n');
    assert(all.last() == second.last());
    if second.last() == '\n' {
        assert((before + pieces).drop_last() =~= before + pieces.drop_last());
    }
}

/// A longer suffix does not fit where a part of it does not.
proof fn lemma_suffix_of_longer(before: Seq<char>, text: Seq<char>, tail: Seq<char>, max_bytes: nat)
    requires
        strings::byte_len(text) > max_bytes,
        longest_suffix(text, tail, max_bytes),
    ensures
        longest_suffix(before + text, tail, max_bytes),
{
    let all = before + text;
    assert(tail.len() < text.len()) by {
        if tail.len() == text.len() {
            assert(tail =~= text);
        }
    }
    assert(all.skip(all.len() - tail.len()) =~= text.skip(text.len() - tail.len()));
    assert(all.skip(all.len() - tail.len() - 1) =~= text.skip(text.len() - tail.len() - 1));
}

/// The last lines of a text, however it begins.
proof fn lemma_last_lines(before: Seq<Seq<char>>, lines: Seq<Seq<char>>, count: int)
    requires
        0 <= count <= lines.len(),
    ensures
        (before + lines).skip((before + lines).len() - count) == lines.skip(lines.len() - count),
{
    assert((before + lines).skip((before + lines).len() - count) =~= lines.skip(
        lines.len() - count,
    ));
}

/// What the end of a text shows: a text that begins mid-line is taken from its first whole line
/// on, where it has one.
pub open spec fn from_whole_line(window: Seq<char>) -> Seq<char> {
    match strings::find(window, newline()) {
        Some(at) => window.skip(at + 1),
        None => window,
    }
}

/// The line before a window's first whole line does not fit together with the window's lines.
proof fn lemma_no_room_before(
    before: Seq<char>,
    cut: Seq<char>,
    lines: Seq<Seq<char>>,
    shown: Seq<char>,
    max_bytes: nat,
)
    requires
        !cut.contains('\n'),
        lines == counted_lines(shown),
        lines.len() > 0,
        strings::byte_len(cut) + 1 + strings::byte_len(shown) > max_bytes + 1,
    ensures
        ({
            let early = strings::split_on(before + cut, '\n');
            strings::byte_len(strings::join(seq![early.last()] + lines, newline())) > max_bytes
        }),
{
    let early = strings::split_on(before + cut, '\n');
    strings::lemma_split_after(before, cut, '\n');
    strings::lemma_split_on_nonempty(before, '\n');
    let head = strings::split_on(before, '\n').last();
    assert(early.last() == head + cut);
    strings::lemma_byte_len_concat(head, cut);
    let more = seq![early.last()] + lines;
    strings::lemma_join_parts(more, newline(), 1);
    assert(more.take(1) =~= seq![early.last()]);
    assert(more.skip(1) =~= lines);
    assert(strings::join(seq![early.last()], newline()) == early.last());
    let joined = strings::join(lines, newline());
    lemma_newline_is_one_byte();
    strings::lemma_byte_len_concat(early.last() + newline(), joined);
    strings::lemma_byte_len_concat(early.last(), newline());
    lemma_lines_joined(shown);
    strings::lemma_byte_len_concat(joined, newline());
}

/// The tail of a text that ends in a line too long to be shown.
proof fn lemma_tail_within_line(
    before: Seq<char>,
    window: Seq<char>,
    max_lines: nat,
    max_bytes: nat,
    part: Truncation,
    whole: Truncation,
)
    requires
        !window.contains('\n'),
        strings::byte_len(window) > max_bytes,
        is_tail(window, max_lines, max_bytes, part),
        is_tail(before + window, max_lines, max_bytes, whole),
    ensures
        part.content@ == whole.content@,
        part.output_lines == whole.output_lines,
        part.last_line_partial == whole.last_line_partial,
{
    let all = before + window;
    let ct = counted_lines(all);
    let cs = counted_lines(window);
    strings::lemma_byte_len_concat(before, window);
    assert(strings::byte_len(Seq::<char>::empty()) == 0);
    assert(window.len() > 0) by {
        if window.len() == 0 {
            assert(window =~= Seq::<char>::empty());
        }
    }
    strings::lemma_split_after(Seq::<char>::empty(), window, '\n');
    assert(Seq::<char>::empty() + window =~= window);
    assert(strings::split_on(Seq::<char>::empty(), '\n') =~= seq![Seq::<char>::empty()]);
    assert(strings::split_on(window, '\n') =~= seq![window]);
    assert(window.contains(window.last()));
    assert(cs =~= seq![window]);
    strings::lemma_split_after(before, window, '\n');
    strings::lemma_split_on_nonempty(before, '\n');
    assert(all.last() == window.last());
    let head = strings::split_on(before, '\n').last();
    assert(ct.last() == head + window);
    strings::lemma_byte_len_concat(head, window);
    if max_lines > 0 {
        lemma_suffix_of_longer(head, window, part.content@, max_bytes);
        lemma_longer_suffix(ct.last(), part.content@, whole.content@, max_bytes);
    } else {
        assert(cs.skip(cs.len() as int) =~= Seq::<Seq<char>>::empty());
        assert(ct.skip(ct.len() as int) =~= Seq::<Seq<char>>::empty());
    }
}

/// The tail of a text whose last lines take up everything that is shown.
proof fn lemma_tail_of_lines(
    before: Seq<char>,
    cut: Seq<char>,
    shown: Seq<char>,
    max_lines: nat,
    max_bytes: nat,
    part: Truncation,
    whole: Truncation,
)
    requires
        !cut.contains('\n'),
        shown.len() > 0,
        strings::byte_len(cut) + 1 + strings::byte_len(shown) > max_bytes + 1,
        is_tail(shown, max_lines, max_bytes, part),
        is_tail((before + cut).push('\n') + shown, max_lines, max_bytes, whole),
    ensures
        part.content@ == whole.content@ || part.content@ == whole.content@ + newline(),
        part.output_lines == whole.output_lines,
        part.last_line_partial == whole.last_line_partial,
{
    let first = before + cut;
    let all = first.push('\n') + shown;
    let ct = counted_lines(all);
    let cs = counted_lines(shown);
    let early = strings::split_on(first, '\n');
    lemma_newline_is_one_byte();
    lemma_counted_concat(first, shown);
    strings::lemma_split_on_nonempty(first, '\n');
    assert(cs.len() > 0) by {
        strings::lemma_split_on_nonempty(shown, '\n');
        strings::lemma_split_on_nonempty(shown.drop_last(), '\n');
    }
    assert(ct.last() == cs.last());
    lemma_no_room_before(before, cut, cs, shown, max_bytes);
    assert(ct.skip(ct.len() - cs.len() - 1) =~= seq![early.last()] + cs);
    assert(!fits(all, max_lines, max_bytes)) by {
        strings::lemma_byte_len_concat(first.push('\n'), shown);
        assert(first.push('\n') =~= first + newline());
        strings::lemma_byte_len_concat(first, newline());
        strings::lemma_byte_len_concat(before, cut);
    }
    let c = part.output_lines as int;
    let d = whole.output_lines as int;
    if fits(shown, max_lines, max_bytes) {
        lemma_lines_joined(shown);
        let joined = strings::join(cs, newline());
        strings::lemma_byte_len_concat(joined, newline());
        lemma_line_within(cs, cs.len() - 1);
        assert(cs.last() == cs[cs.len() - 1]);
        lemma_last_lines(early, cs, cs.len() as int);
        assert(cs.skip(0) =~= cs);
        assert(longest_tail(ct, cs.len(), max_lines, max_bytes));
        if d < cs.len() {
            lemma_more_lines(ct, d + 1, cs.len() as int);
        }
        if d > cs.len() {
            lemma_more_lines(ct, cs.len() as int + 1, d);
        }
        assert(d == cs.len());
    } else if max_lines > 0 && strings::byte_len(cs.last()) > max_bytes {
        lemma_longer_suffix(cs.last(), part.content@, whole.content@, max_bytes);
    } else {
        lemma_last_lines(early, cs, c);
        if c < cs.len() {
            lemma_last_lines(early, cs, c + 1);
        }
        assert(longest_tail(ct, c as nat, max_lines, max_bytes));
        if d < c {
            lemma_more_lines(ct, d + 1, c);
        }
        if c < d {
            lemma_more_lines(ct, c + 1, d);
        }
    }
}

/// A window on the end of a text shows the same tail as the whole text, up to a final line feed,
/// where the window takes more bytes than are shown and something is left of it.
pub proof fn law_tail_needs_only_the_end(
    before: Seq<char>,
    window: Seq<char>,
    max_lines: nat,
    max_bytes: nat,
    part: Truncation,
    whole: Truncation,
)
    requires
        strings::byte_len(window) > max_bytes + 1,
        from_whole_line(window).len() > 0,
        is_tail(from_whole_line(window), max_lines, max_bytes, part),
        is_tail(before + window, max_lines, max_bytes, whole),
    ensures
        part.content@ == whole.content@ || part.content@ == whole.content@ + newline(),
        part.output_lines == whole.output_lines,
        part.last_line_partial == whole.last_line_partial,
{
    strings::lemma_find_from(window, newline(), 0);
    match strings::find(window, newline()) {
        None => {
            if window.contains('\n') {
                let i = choose|i: int| 0 <= i < window.len() && window[i] == '\n';
                assert(window.subrange(i, i + 1) =~= newline());
                assert(strings::stands_at(window, newline(), i));
            }
            lemma_tail_within_line(before, window, max_lines, max_bytes, part, whole);
        },
        Some(at) => {
            let cut = window.take(at);
            let shown = from_whole_line(window);
            assert(window[at] == '\n') by {
                assert(window.subrange(at, at + 1)[0] == '\n');
            }
            if cut.contains('\n') {
                let i = choose|i: int| 0 <= i < cut.len() && cut[i] == '\n';
                assert(window.subrange(i, i + 1) =~= newline());
                assert(strings::stands_at(window, newline(), i));
            }
            assert(before + window =~= (before + cut).push('\n') + shown);
            assert(window =~= cut + newline() + shown);
            lemma_newline_is_one_byte();
            strings::lemma_byte_len_concat(cut + newline(), shown);
            strings::lemma_byte_len_concat(cut, newline());
            lemma_tail_of_lines(before, cut, shown, max_lines, max_bytes, part, whole);
        },
    }
}

// ---- Line endings ----

/// The byte order mark, where `content` begins with one, and the text after it.
pub fn split_bom(content: &str) -> (parts: (&'static str, &str))
    ensures
        content@.len() > 0 && content@[0] == '\u{FEFF}' ==> parts.0@ == seq!['\u{FEFF}']
            && parts.1@ == content@.skip(1),
        !(content@.len() > 0 && content@[0] == '\u{FEFF}') ==> parts.0@ == Seq::<char>::empty()
            && parts.1@ == content@,
{
    let chars = chars_of(content);
    proof {
        reveal_strlit("");
        reveal_strlit("\u{FEFF}");
    }
    assert(""@ =~= Seq::<char>::empty());
    assert("\u{FEFF}"@ =~= seq!['\u{FEFF}']);
    if chars.len() > 0 && chars[0] == '\u{FEFF}' {
        let (_, rest) = cut(content, &chars, 1);
        ("\u{FEFF}", rest)
    } else {
        ("", content)
    }
}

/// Whether the first line feed of `content` follows a carriage return.
pub open spec fn ends_lines_with_crlf(content: Seq<char>) -> bool {
    match strings::find(content, newline()) {
        Some(at) => at > 0 && content[at - 1] == '\r',
        None => false,
    }
}

pub open spec fn line_ending(content: Seq<char>) -> Seq<char> {
    if ends_lines_with_crlf(content) {
        seq!['\r', '\n']
    } else {
        newline()
    }
}

pub fn detect_line_ending(content: &str) -> (ending: &'static str)
    ensures
        ending@ == line_ending(content@),
{
    let chars = chars_of(content);
    let feed: Vec<char> = vec!['\n'];
    proof {
        reveal_strlit("\n");
        reveal_strlit("\r\n");
    }
    assert("\n"@ =~= newline());
    assert("\r\n"@ =~= seq!['\r', '\n']);
    assert(feed@ =~= newline());
    match position(&chars, &feed) {
        Some(at) => if at > 0 && chars[at - 1] == '\r' {
            "\r\n"
        } else {
            "\n"
        },
        None => "\n",
    }
}

/// Every line ending as a line feed: a carriage return becomes one, and a line feed right
/// after a carriage return adds none.
pub open spec fn to_lf(text: Seq<char>) -> Seq<char>
    decreases text.len(),
{
    if text.len() == 0 {
        Seq::empty()
    } else {
        let before = to_lf(text.drop_last());
        if text.last() == '\n' && text.len() > 1 && text[text.len() - 2] == '\r' {
            before
        } else if text.last() == '\r' {
            before.push('\n')
        } else {
            before.push(text.last())
        }
    }
}

pub fn normalize_to_lf(text: &str) -> (normalized: String)
    ensures
        normalized@ == to_lf(text@),
{
    let chars = chars_of(text);
    let mut normalized = String::new();
    let mut at: usize = 0;
    while at < chars.len()
        invariant
            at <= chars@.len(),
            normalized@ == to_lf(chars@.take(at as int)),
        decreases chars@.len() - at,
    {
        let c = chars[at];
        assert(chars@.take(at + 1).drop_last() =~= chars@.take(at as int));
        if c == '\r' {
            normalized.push('\n');
        } else if !(c == '\n' && at > 0 && chars[at - 1] == '\r') {
            normalized.push(c);
        }
        at += 1;
    }
    assert(chars@.take(at as int) =~= chars@);
    normalized
}

/// Every line feed preceded by a carriage return.
pub open spec fn to_crlf(text: Seq<char>) -> Seq<char>
    decreases text.len(),
{
    if text.len() == 0 {
        Seq::empty()
    } else {
        let before = to_crlf(text.drop_last());
        if text.last() == '\n' {
            before.push('\r').push('\n')
        } else {
            before.push(text.last())
        }
    }
}

/// `text` with the line ending that a file used.
pub open spec fn with_ending(text: Seq<char>, ending: Seq<char>) -> Seq<char> {
    if ending == seq!['\r', '\n'] {
        to_crlf(text)
    } else {
        text
    }
}

pub fn restore_line_endings(text: &str, ending: &str) -> (restored: String)
    ensures
        restored@ == with_ending(text@, ending@),
{
    let wanted = chars_of(ending);
    let crlf: Vec<char> = vec!['\r', '\n'];
    assert(crlf@ =~= seq!['\r', '\n']);
    if !same_chars(&wanted, &crlf) {
        return text.to_owned();
    }
    let chars = chars_of(text);
    let mut restored = String::new();
    let mut at: usize = 0;
    while at < chars.len()
        invariant
            at <= chars@.len(),
            restored@ == to_crlf(chars@.take(at as int)),
        decreases chars@.len() - at,
    {
        let c = chars[at];
        assert(chars@.take(at + 1).drop_last() =~= chars@.take(at as int));
        if c == '\n' {
            restored.push('\r');
        }
        restored.push(c);
        at += 1;
    }
    assert(chars@.take(at as int) =~= chars@);
    restored
}

/// Text in which every line ends in `\r\n` and no carriage return stands alone.
pub open spec fn is_crlf_text(text: Seq<char>) -> bool {
    forall|i: int| #![trigger text[i]]
        0 <= i < text.len() ==> {
            &&& text[i] == '\n' ==> i > 0 && text[i - 1] == '\r'
            &&& text[i] == '\r' ==> i + 1 < text.len() && text[i + 1] == '\n'
        }
}

/// Normalized text holds no carriage return.
pub proof fn law_normalized_has_no_carriage_return(text: Seq<char>)
    ensures
        forall|i: int| 0 <= i < to_lf(text).len() ==> #[trigger] to_lf(text)[i] != '\r',
    decreases text.len(),
{
    if text.len() > 0 {
        let before = to_lf(text.drop_last());
        law_normalized_has_no_carriage_return(text.drop_last());
        assert forall|i: int| 0 <= i < to_lf(text).len() implies #[trigger] to_lf(text)[i] != '\r' by {
            if i < before.len() {
                assert(before[i] != '\r');
            }
        }
    }
}

/// Normalizing text that is normalized already changes nothing.
pub proof fn law_normalizing_is_idempotent(text: Seq<char>)
    ensures
        to_lf(to_lf(text)) == to_lf(text),
{
    law_normalized_has_no_carriage_return(text);
    lemma_to_lf_keeps(to_lf(text));
}

proof fn lemma_to_lf_keeps(text: Seq<char>)
    requires
        forall|i: int| 0 <= i < text.len() ==> #[trigger] text[i] != '\r',
    ensures
        to_lf(text) == text,
    decreases text.len(),
{
    if text.len() > 0 {
        let before = text.drop_last();
        assert forall|i: int| 0 <= i < before.len() implies #[trigger] before[i] != '\r' by {
            assert(text[i] != '\r');
        }
        lemma_to_lf_keeps(before);
        assert(text[text.len() - 1] != '\r');
        if text.len() > 1 {
            assert(text[text.len() - 2] != '\r');
        }
        assert(text =~= before.push(text.last()));
    }
}

/// Every line ending becomes a line feed, each where it stands, and nothing else changes: a
/// carriage return with a line feed after it, and a carriage return alone.
pub proof fn law_each_line_ending_becomes_a_line_feed(before: Seq<char>, after: Seq<char>)
    ensures
        to_lf(before + seq!['\r', '\n'] + after) == to_lf(before) + seq!['\n'] + to_lf(after),
        after.len() == 0 || after[0] != '\n' ==> to_lf(before + seq!['\r'] + after) == to_lf(before)
            + seq!['\n'] + to_lf(after),
        !before.contains('\r') ==> to_lf(before) == before,
        before.len() == 0 || before.last() != '\r' ==> to_lf(before + after) == to_lf(before)
            + to_lf(after),
{
    let crlf = before + seq!['\r', '\n'];
    let cr = before + seq!['\r'];
    assert(crlf.drop_last() =~= cr);
    assert(cr.drop_last() =~= before);
    assert(to_lf(cr) =~= to_lf(before) + seq!['\n']);
    assert(to_lf(crlf) == to_lf(cr));
    lemma_to_lf_concat(crlf, after);
    if after.len() == 0 || after[0] != '\n' {
        lemma_to_lf_concat(cr, after);
    }
    if before.len() == 0 || before.last() != '\r' {
        lemma_to_lf_concat(before, after);
    }
    if !before.contains('\r') {
        lemma_to_lf_keeps(before);
    }
}

pub proof fn lemma_to_lf_something(text: Seq<char>)
    ensures
        text.len() > 0 ==> to_lf(text).len() > 0,
    decreases text.len(),
{
    if text.len() > 0 {
        lemma_to_lf_something(text.drop_last());
    }
}

proof fn lemma_to_lf_concat(before: Seq<char>, after: Seq<char>)
    requires
        before.len() == 0 || before.last() != '\r' || after.len() == 0 || after[0] != '\n',
    ensures
        to_lf(before + after) == to_lf(before) + to_lf(after),
    decreases after.len(),
{
    let all = before + after;
    if after.len() == 0 {
        assert(all =~= before);
        assert(to_lf(before) + to_lf(after) =~= to_lf(before));
    } else {
        let rest = after.drop_last();
        assert(all.drop_last() =~= before + rest);
        assert(all.last() == after.last());
        lemma_to_lf_concat(before, rest);
        if rest.len() > 0 {
            assert(all[all.len() - 2] == after[after.len() - 2]);
        } else if before.len() > 0 {
            assert(all[all.len() - 2] == before.last());
        }
        assert(to_lf(all) =~= to_lf(before) + to_lf(after));
    }
}

/// Restored text begins as it did, or with the carriage return of a first line ending.
pub proof fn lemma_crlf_head(text: Seq<char>)
    ensures
        text.len() == 0 ==> to_crlf(text).len() == 0,
        text.len() > 0 ==> to_crlf(text).len() > 0 && to_crlf(text)[0] == if text[0] == '\n' {
            '\r'
        } else {
            text[0]
        },
    decreases text.len(),
{
    if text.len() > 0 {
        let before = text.drop_last();
        lemma_crlf_head(before);
        if before.len() > 0 {
            assert(to_crlf(text)[0] == to_crlf(before)[0]);
        }
    }
}

/// Line feeds of a text without carriage returns all become `\r\n`.
pub proof fn law_restored_lines_end_alike(text: Seq<char>)
    requires
        forall|i: int| 0 <= i < text.len() ==> #[trigger] text[i] != '\r',
    ensures
        is_crlf_text(to_crlf(text)),
    decreases text.len(),
{
    if text.len() > 0 {
        let rest = text.drop_last();
        assert forall|i: int| 0 <= i < rest.len() implies #[trigger] rest[i] != '\r' by {
            assert(text[i] != '\r');
        }
        law_restored_lines_end_alike(rest);
        assert(text[text.len() - 1] != '\r');
        let before = to_crlf(rest);
        let now = to_crlf(text);
        assert forall|i: int| #![trigger now[i]] 0 <= i < now.len() implies {
            &&& now[i] == '\n' ==> i > 0 && now[i - 1] == '\r'
            &&& now[i] == '\r' ==> i + 1 < now.len() && now[i + 1] == '\n'
        } by {
            if i < before.len() {
                assert(now[i] == before[i]);
            }
        }
    }
}

/// A file whose lines all end alike gets its own line endings back.
pub proof fn law_line_endings_survive(text: Seq<char>)
    requires
        is_crlf_text(text) || (forall|i: int| 0 <= i < text.len() ==> #[trigger] text[i] != '\r'),
    ensures
        with_ending(to_lf(text), line_ending(text)) == text,
{
    strings::lemma_find_from(text, newline(), 0);
    if forall|i: int| 0 <= i < text.len() ==> #[trigger] text[i] != '\r' {
        lemma_to_lf_keeps(text);
        match strings::find(text, newline()) {
            Some(at) => {
                if at > 0 {
                    assert(text[at - 1] != '\r');
                }
            },
            None => {},
        }
        assert(!ends_lines_with_crlf(text));
        assert(newline().len() == 1);
    } else {
        let i = choose|i: int| 0 <= i < text.len() && text[i] == '\r';
        assert(text[i] == '\r' && text[i + 1] == '\n');
        assert(text.subrange(i + 1, i + 2) =~= newline());
        assert(strings::stands_at(text, newline(), i + 1));
        let at = strings::find(text, newline())->0;
        assert(text.subrange(at, at + 1)[0] == '\n');
        assert(text[at] == '\n');
        assert(ends_lines_with_crlf(text));
        lemma_crlf_round(text);
    }
}

/// In a file whose lines end in `\r\n`, every line feed of the new text gets its carriage return.
pub proof fn law_restored_endings_are_the_files(file: Seq<char>, new: Seq<char>)
    requires
        !new.contains('\r'),
    ensures
        ({
            let restored = with_ending(new, line_ending(file));
            &&& to_lf(restored) == new
            &&& !file.contains('\r') ==> restored == new
            &&& is_crlf_text(file) && file.contains('\n') ==> is_crlf_text(restored)
        }),
{
    assert forall|i: int| 0 <= i < new.len() implies #[trigger] new[i] != '\r' by {
        assert(new.contains(new[i]));
    }
    lemma_to_lf_keeps(new);
    lemma_back_to_lf(new);
    strings::lemma_find_from(file, newline(), 0);
    if !file.contains('\r') {
        match strings::find(file, newline()) {
            Some(at) => {
                if at > 0 {
                    assert(file.contains(file[at - 1]));
                }
            },
            None => {},
        }
        assert(!ends_lines_with_crlf(file));
        assert(newline().len() == 1);
    }
    if is_crlf_text(file) && file.contains('\n') {
        let i = choose|i: int| 0 <= i < file.len() && file[i] == '\n';
        assert(file.subrange(i, i + 1) =~= newline());
        assert(strings::stands_at(file, newline(), i));
        let at = strings::find(file, newline())->0;
        assert(file.subrange(at, at + 1)[0] == '\n');
        assert(file[at] == '\n');
        assert(ends_lines_with_crlf(file));
        law_restored_lines_end_alike(new);
    }
}

proof fn lemma_back_to_lf(text: Seq<char>)
    requires
        forall|i: int| 0 <= i < text.len() ==> #[trigger] text[i] != '\r',
    ensures
        to_lf(to_crlf(text)) == text,
    decreases text.len(),
{
    if text.len() == 0 {
        assert(to_lf(to_crlf(text)) =~= text);
    } else {
        let before = text.drop_last();
        assert forall|i: int| 0 <= i < before.len() implies #[trigger] before[i] != '\r' by {
            assert(text[i] != '\r');
        }
        lemma_back_to_lf(before);
        let head = to_crlf(before);
        let c = text.last();
        assert(c == text[text.len() - 1]);
        assert(text =~= before.push(c));
        if c == '\n' {
            law_each_line_ending_becomes_a_line_feed(head, Seq::empty());
            assert(head.push('\r').push('\n') =~= head + seq!['\r', '\n'] + Seq::<char>::empty());
            assert(to_lf(to_crlf(text)) =~= text);
        } else {
            let all = head.push(c);
            assert(all.drop_last() =~= head);
            assert(to_lf(all) =~= text);
        }
    }
}

/// A beginning of such text that does not cut a line ending is such text too.
proof fn lemma_crlf_prefix(text: Seq<char>, count: int)
    requires
        is_crlf_text(text),
        0 <= count <= text.len(),
        count > 0 ==> text[count - 1] != '\r',
    ensures
        is_crlf_text(text.take(count)),
{
    let part = text.take(count);
    assert forall|i: int| #![trigger part[i]] 0 <= i < part.len() implies {
        &&& part[i] == '\n' ==> i > 0 && part[i - 1] == '\r'
        &&& part[i] == '\r' ==> i + 1 < part.len() && part[i + 1] == '\n'
    } by {
        assert(text[i] == part[i]);
    }
}

proof fn lemma_crlf_round(text: Seq<char>)
    requires
        is_crlf_text(text),
    ensures
        to_crlf(to_lf(text)) == text,
    decreases text.len(),
{
    let end = text.len() as int;
    if end > 0 {
        let last = text[end - 1];
        let before = text.drop_last();
        assert(last != '\r');
        if last == '\n' {
            assert(text[end - 2] == '\r');
            let head = text.take(end - 2);
            if end > 2 {
                let k = end - 3;
                assert(text[k] != '\r');
            }
            lemma_crlf_prefix(text, end - 2);
            lemma_crlf_round(head);
            assert(before.drop_last() =~= head);
            assert(before.last() == '\r');
            assert(to_lf(before) == to_lf(head).push('\n'));
            assert(to_lf(text) == to_lf(head).push('\n'));
            assert(to_lf(text).drop_last() =~= to_lf(head));
            assert(text =~= head.push('\r').push('\n'));
        } else {
            if end > 1 {
                let k = end - 2;
                assert(text[k] != '\r');
            }
            lemma_crlf_prefix(text, end - 1);
            assert(before =~= text.take(end - 1));
            lemma_crlf_round(before);
            assert(to_lf(text) == to_lf(before).push(last));
            assert(to_lf(text).drop_last() =~= to_lf(before));
            assert(text =~= before.push(last));
        }
    }
}

// ---- Fuzzy matching ----

/// `text` in Unicode normalization form KC.
pub uninterp spec fn nfkc(text: Seq<char>) -> Seq<char>;

/// Whether all characters are ASCII.
pub open spec fn is_ascii(text: Seq<char>) -> bool {
    forall|i: int| #![trigger text[i]] 0 <= i < text.len() ==> text[i] <= '\u{7F}'
}

/// Whether a text holds anything but white space.
pub open spec fn has_ink(text: Seq<char>) -> bool {
    exists|i: int| #![trigger text[i]] 0 <= i < text.len() && !strings::is_white_space(text[i])
}

/// `unicode_normalization`'s `nfkc`: the characters of the text in Unicode normalization form
/// KC. ASCII neither decomposes nor composes, so text of nothing else stays as it is, and so do
/// the line feeds of any text, for nothing else decomposes into one. No character decomposes into
/// nothing, and none but white space into white space alone; none composes into white space. More
/// is not said here of which characters those are.
#[verifier::external_body]
fn to_nfkc(text: &str) -> (normal: String)
    ensures
        normal@ == nfkc(text@),
        is_ascii(text@) ==> normal@ == text@,
        strings::split_on(normal@, '\n').len() == strings::split_on(text@, '\n').len(),
        has_ink(text@) ==> has_ink(normal@),
{
    text.nfkc().collect()
}

/// Typographic quotes, dashes and spaces as ASCII; any other character as it is.
pub open spec fn fold(c: char) -> char {
    if '\u{2018}' <= c <= '\u{201B}' {
        '\''
    } else if '\u{201C}' <= c <= '\u{201F}' {
        '"'
    } else if '\u{2010}' <= c <= '\u{2015}' || c == '\u{2212}' {
        '-'
    } else if c == '\u{00A0}' || '\u{2002}' <= c <= '\u{200A}' || c == '\u{202F}' || c == '\u{205F}'
        || c == '\u{3000}' {
        ' '
    } else {
        c
    }
}

pub open spec fn fold_all(text: Seq<char>) -> Seq<char> {
    text.map_values(|c: char| fold(c))
}

/// Every line without the white space at its end.
pub open spec fn trim_lines(text: Seq<char>) -> Seq<char> {
    strings::join(strings::split_on(text, '\n').map_values(|line: Seq<char>| strings::trim_end(line)), newline())
}

/// What remains to be done to a text in form KC: trailing white space goes, and typography
/// becomes ASCII.
pub open spec fn folded(normal: Seq<char>) -> Seq<char> {
    fold_all(trim_lines(normal))
}

/// The fuzzy form of a text.
pub open spec fn fuzzy_form(text: Seq<char>) -> Seq<char> {
    folded(nfkc(text))
}

/// Typographic quotes, dashes and spaces become those of ASCII, and every other character stays.
pub proof fn law_typography_becomes_ascii(c: char)
    ensures
        0x2018 <= c as u32 <= 0x201B ==> fold(c) as u32 == 0x27,
        0x201C <= c as u32 <= 0x201F ==> fold(c) as u32 == 0x22,
        0x2010 <= c as u32 <= 0x2015 || c as u32 == 0x2212 ==> fold(c) as u32 == 0x2D,
        c as u32 == 0xA0 || 0x2002 <= c as u32 <= 0x200A || c as u32 == 0x202F || c as u32 == 0x205F
            || c as u32 == 0x3000 ==> fold(c) as u32 == 0x20,
        fold(c) != c ==> c as u32 >= 0xA0 && (fold(c) as u32 == 0x27 || fold(c) as u32 == 0x22
            || fold(c) as u32 == 0x2D || fold(c) as u32 == 0x20),
        fold(fold(c)) == fold(c),
{
}

fn fold_char(c: char) -> (plain: char)
    ensures
        plain == fold(c),
{
    if '\u{2018}' <= c && c <= '\u{201B}' {
        '\''
    } else if '\u{201C}' <= c && c <= '\u{201F}' {
        '"'
    } else if ('\u{2010}' <= c && c <= '\u{2015}') || c == '\u{2212}' {
        '-'
    } else if c == '\u{00A0}' || ('\u{2002}' <= c && c <= '\u{200A}') || c == '\u{202F}' || c
        == '\u{205F}' || c == '\u{3000}' {
        ' '
    } else {
        c
    }
}

/// Trailing white space stripped per line, and typographic quotes, dashes and spaces folded
/// to ASCII.
pub fn fold_normalized(normal: &str) -> (plain: String)
    ensures
        plain@ == folded(normal@),
{
    let chars = chars_of(normal);
    let bounds = pieces_of(&chars, '\n');
    let ghost pieces = strings::split_on(chars@, '\n');
    let ghost trimmed = pieces.map_values(|line: Seq<char>| strings::trim_end(line));
    let mut plain = String::new();
    let mut i: usize = 0;
    assert(fold_all(strings::join(trimmed.take(0), newline())) =~= Seq::<char>::empty());
    while i < bounds.len()
        invariant
            strings::are_bounds(bounds@, chars@, '\n'),
            pieces == strings::split_on(chars@, '\n'),
            trimmed == pieces.map_values(|line: Seq<char>| strings::trim_end(line)),
            i <= bounds@.len(),
            plain@ == fold_all(strings::join(trimmed.take(i as int), newline())),
        decreases bounds@.len() - i,
    {
        let (start, stop) = bounds[i];
        let ghost before = plain@;
        if i > 0 {
            plain.push('\n');
        }
        let ghost opened = plain@;
        let end: usize = trimmed_end(&chars, start, stop);
        let ghost line = chars@.subrange(start as int, end as int);
        let mut at: usize = start;
        while at < end
            invariant
                start <= at <= end <= chars@.len(),
                line == chars@.subrange(start as int, end as int),
                plain@ == opened + fold_all(line.take(at - start)),
            decreases end - at,
        {
            plain.push(fold_char(chars[at]));
            assert(fold_all(line.take(at + 1 - start)) =~= fold_all(line.take(at - start)).push(
                fold(chars@[at as int]),
            ));
            at += 1;
        }
        proof {
            assert(line.take(end - start) =~= line);
            assert(trimmed[i as int] == line);
            let now = trimmed.take(i + 1);
            assert(now.drop_last() =~= trimmed.take(i as int));
            if i > 0 {
                assert(fold_all(strings::join(now, newline())) =~= fold_all(
                    strings::join(trimmed.take(i as int), newline()),
                ) + seq!['\n'] + fold_all(line));
                assert(opened =~= before + seq!['\n']);
            } else {
                assert(strings::join(now, newline()) == line);
                assert(opened =~= Seq::<char>::empty());
            }
        }
        i += 1;
    }
    assert(trimmed.take(i as int) =~= trimmed);
    plain
}

/// Quotes, dashes and spaces that have a plain form in ASCII.
pub open spec fn is_typographic(c: char) -> bool {
    ||| '\u{2018}' <= c <= '\u{201F}'
    ||| '\u{2010}' <= c <= '\u{2015}'
    ||| c == '\u{2212}'
    ||| c == '\u{00A0}'
    ||| '\u{2002}' <= c <= '\u{200A}'
    ||| c == '\u{202F}'
    ||| c == '\u{205F}'
    ||| c == '\u{3000}'
}

/// The lines of a text as they are after folding.
pub open spec fn folded_lines(normal: Seq<char>) -> Seq<Seq<char>> {
    strings::split_on(normal, '\n').map_values(
        |line: Seq<char>| fold_all(strings::trim_end(line)),
    )
}

proof fn lemma_trim_end(line: Seq<char>)
    ensures
        strings::trim_end(line).len() <= line.len(),
        strings::trim_end(line) == line.take(strings::trim_end(line).len() as int),
        strings::trim_end(line).len() > 0 ==> !strings::is_white_space(
            strings::trim_end(line).last(),
        ),
    decreases line.len(),
{
    if line.len() > 0 && strings::is_white_space(line.last()) {
        let rest = line.drop_last();
        lemma_trim_end(rest);
        let kept = strings::trim_end(rest).len() as int;
        assert(rest.take(kept) =~= line.take(kept));
    } else {
        assert(line.take(line.len() as int) =~= line);
    }
}

/// Folding leaves every line feed where it was.
proof fn lemma_fold_splits(text: Seq<char>)
    ensures
        strings::split_on(fold_all(text), '\n') == strings::split_on(text, '\n').map_values(
            |line: Seq<char>| fold_all(line),
        ),
    decreases text.len(),
{
    let plain = fold_all(text);
    let lines = strings::split_on(text, '\n');
    let wanted = lines.map_values(|line: Seq<char>| fold_all(line));
    if text.len() == 0 {
        assert(plain =~= Seq::<char>::empty());
        assert(fold_all(Seq::<char>::empty()) =~= Seq::<char>::empty());
        assert(strings::split_on(plain, '\n') =~= wanted);
    } else {
        let rest = text.drop_last();
        let before = strings::split_on(rest, '\n');
        lemma_fold_splits(rest);
        strings::lemma_split_on_nonempty(rest, '\n');
        assert(plain.drop_last() =~= fold_all(rest));
        assert(plain.last() == fold(text.last()));
        if text.last() == '\n' {
            assert(fold_all(Seq::<char>::empty()) =~= Seq::<char>::empty());
            assert(strings::split_on(plain, '\n') =~= wanted);
        } else {
            assert(fold_all(before.last().push(text.last())) =~= fold_all(before.last()).push(
                fold(text.last()),
            ));
            assert(strings::split_on(plain, '\n') =~= wanted);
        }
    }
}

/// The lines of a folded text are its lines, each trimmed and folded.
proof fn lemma_folded_lines(normal: Seq<char>)
    ensures
        strings::split_on(folded(normal), '\n') == folded_lines(normal),
{
    let lines = strings::split_on(normal, '\n');
    let trimmed = lines.map_values(|line: Seq<char>| strings::trim_end(line));
    strings::lemma_split_on_nonempty(normal, '\n');
    strings::lemma_split_has_no_separator(normal, '\n');
    assert forall|i: int| #![trigger trimmed[i]] 0 <= i < trimmed.len() implies !trimmed[i].contains(
        '\n',
    ) by {
        lemma_trim_end(lines[i]);
        if trimmed[i].contains('\n') {
            let k = choose|k: int| 0 <= k < trimmed[i].len() && trimmed[i][k] == '\n';
            assert(lines[i][k] == '\n');
            assert(lines[i].contains('\n'));
        }
    }
    strings::lemma_split_join(trimmed, '\n');
    lemma_fold_splits(trim_lines(normal));
    assert(trimmed.map_values(|line: Seq<char>| fold_all(line)) =~= folded_lines(normal));
}

/// A line that was trimmed and folded is as it stays.
proof fn lemma_folded_line(line: Seq<char>)
    ensures
        ({
            let plain = fold_all(strings::trim_end(line));
            &&& strings::trim_end(plain) == plain
            &&& fold_all(plain) == plain
        }),
{
    let kept = strings::trim_end(line);
    let plain = fold_all(kept);
    lemma_trim_end(line);
    if kept.len() > 0 {
        assert(plain.last() == fold(kept.last()));
    }
    assert(fold_all(plain) =~= plain);
}

/// What a folded text is: as many lines as before, each without white space at its end, and no
/// typographic quote, dash or space in it. Folding it again changes nothing.
pub proof fn law_folded_text_is_plain(normal: Seq<char>)
    ensures
        strings::split_on(folded(normal), '\n').len() == strings::split_on(normal, '\n').len(),
        forall|i: int| #![trigger strings::split_on(folded(normal), '\n')[i]]
            0 <= i < strings::split_on(folded(normal), '\n').len() ==> strings::trim_end(
                strings::split_on(folded(normal), '\n')[i],
            ) == strings::split_on(folded(normal), '\n')[i],
        forall|i: int| #![trigger folded(normal)[i]]
            0 <= i < folded(normal).len() ==> !is_typographic(folded(normal)[i]),
        folded(folded(normal)) == folded(normal),
{
    let plain = folded(normal);
    let lines = strings::split_on(plain, '\n');
    let old_lines = strings::split_on(normal, '\n');
    lemma_folded_lines(normal);
    assert forall|i: int| #![trigger lines[i]] 0 <= i < lines.len() implies strings::trim_end(
        lines[i],
    ) == lines[i] by {
        lemma_folded_line(old_lines[i]);
    }
    let again = lines.map_values(|line: Seq<char>| strings::trim_end(line));
    assert(again =~= lines);
    strings::lemma_join_split(plain, '\n');
    assert(trim_lines(plain) == plain);
    assert(fold_all(plain) =~= plain);
}

/// A text is folded line by line, without the white space at the end of each, and character by
/// character.
pub proof fn law_lines_are_folded_one_by_one(normal: Seq<char>, i: int, k: int)
    requires
        0 <= i < strings::split_on(normal, '\n').len(),
        0 <= k < strings::trim_end(strings::split_on(normal, '\n')[i]).len(),
    ensures
        ({
            let line = strings::trim_end(strings::split_on(normal, '\n')[i]);
            let plain = strings::split_on(folded(normal), '\n');
            &&& plain.len() == strings::split_on(normal, '\n').len()
            &&& plain[i].len() == line.len()
            &&& plain[i][k] == fold(line[k])
        }),
{
    lemma_folded_lines(normal);
    law_folded_text_is_plain(normal);
}

/// The fuzzy form has trimmed lines and no typography, as folded text has. It is its own fuzzy
/// form where it is in form KC.
pub proof fn law_fuzzy_form_is_plain(text: Seq<char>)
    ensures
        strings::split_on(fuzzy_form(text), '\n').len() == strings::split_on(
            nfkc(text),
            '\n',
        ).len(),
        forall|i: int| #![trigger strings::split_on(fuzzy_form(text), '\n')[i]]
            0 <= i < strings::split_on(fuzzy_form(text), '\n').len() ==> strings::trim_end(
                strings::split_on(fuzzy_form(text), '\n')[i],
            ) == strings::split_on(fuzzy_form(text), '\n')[i],
        forall|i: int| #![trigger fuzzy_form(text)[i]]
            0 <= i < fuzzy_form(text).len() ==> !is_typographic(fuzzy_form(text)[i]),
        nfkc(fuzzy_form(text)) == fuzzy_form(text) ==> fuzzy_form(fuzzy_form(text)) == fuzzy_form(
            text,
        ),
{
    law_folded_text_is_plain(nfkc(text));
}

proof fn lemma_trimmed_away(line: Seq<char>)
    requires
        strings::trim_end(line).len() == 0,
    ensures
        !has_ink(line),
    decreases line.len(),
{
    if line.len() > 0 {
        let rest = line.drop_last();
        lemma_trimmed_away(rest);
        assert forall|i: int| #![trigger line[i]]
            0 <= i < line.len() implies strings::is_white_space(line[i]) by {
            if i < rest.len() {
                assert(rest[i] == line[i]);
            }
        }
    }
}

/// Folding leaves nothing only of white space on a single line.
proof fn lemma_folded_away(normal: Seq<char>)
    requires
        folded(normal).len() == 0,
    ensures
        strings::split_on(normal, '\n').len() == 1,
        !has_ink(normal),
{
    let lines = strings::split_on(normal, '\n');
    let plain = folded(normal);
    lemma_folded_lines(normal);
    assert(strings::split_on(plain, '\n') =~= seq![plain]);
    assert(folded_lines(normal).len() == lines.len());
    strings::lemma_join_split(normal, '\n');
    assert(lines[0] == normal);
    assert(folded_lines(normal)[0] == fold_all(strings::trim_end(normal)));
    assert(strings::trim_end(normal).len() == fold_all(strings::trim_end(normal)).len());
    lemma_trimmed_away(normal);
}

/// What folding leaves, where it leaves something, has several lines or is no white space alone.
pub proof fn lemma_folded_rest(normal: Seq<char>)
    requires
        folded(normal).len() > 0,
    ensures
        strings::split_on(folded(normal), '\n').len() > 1 || has_ink(folded(normal)),
{
    let plain = folded(normal);
    let lines = strings::split_on(plain, '\n');
    law_folded_text_is_plain(normal);
    strings::lemma_split_on_nonempty(plain, '\n');
    if lines.len() == 1 {
        strings::lemma_join_split(plain, '\n');
        assert(lines[0] == plain);
        lemma_trim_end(plain);
        assert(strings::trim_end(plain) == plain);
        assert(!strings::is_white_space(plain[plain.len() - 1]));
    }
}

/// The fuzzy form of a text: form KC, trailing white space stripped per line, and typographic
/// quotes, dashes and spaces folded to ASCII. The lines stay as many, and something is left of
/// every text that has several lines or is no white space alone.
pub fn normalize_for_fuzzy_match(text: &str) -> (plain: String)
    ensures
        plain@ == fuzzy_form(text@),
        is_ascii(text@) ==> plain@ == folded(text@),
        strings::split_on(plain@, '\n').len() == strings::split_on(text@, '\n').len(),
        strings::split_on(text@, '\n').len() > 1 || has_ink(text@) ==> plain@.len() > 0,
{
    let normal = to_nfkc(text);
    proof {
        law_folded_text_is_plain(normal@);
        if folded(normal@).len() == 0 {
            lemma_folded_away(normal@);
        }
    }
    fold_normalized(normal.as_str())
}

} // verus!
