//! Server-sent events: blocks separated by a blank line, payload in `data:` lines.

use crate::strings;
use crate::strings::{chars_of, is_at, pieces_of, text_between, text_from_utf8};
use vstd::prelude::*;

verus! {

pub open spec fn blank_line() -> Seq<u8> {
    seq![10u8, 10u8]
}

pub open spec fn blank_crlf_line() -> Seq<u8> {
    seq![13u8, 10u8, 13u8, 10u8]
}

/// Where the first event ends, and how long the blank line after it is.
pub open spec fn boundary(buffer: Seq<u8>) -> Option<(int, int)> {
    match (strings::find(buffer, blank_line()), strings::find(buffer, blank_crlf_line())) {
        (Some(lf), Some(crlf)) => if lf <= crlf {
            Some((lf, 2))
        } else {
            Some((crlf, 4))
        },
        (Some(lf), None) => Some((lf, 2)),
        (None, Some(crlf)) => Some((crlf, 4)),
        (None, None) => None,
    }
}

/// What a line carries: what follows `data:`, without one space.
pub open spec fn carried(line: Seq<char>) -> Option<Seq<char>> {
    if strings::stands_at(line, "data:"@, 0) {
        let data = line.skip("data:"@.len() as int);
        Some(
            if data.len() > 0 && data[0] == ' ' {
                data.skip(1)
            } else {
                data
            },
        )
    } else {
        None
    }
}

/// A line carries what follows `data:`, but for one space; other lines carry nothing.
pub proof fn law_data_lines_carry_what_follows(data: Seq<char>, line: Seq<char>)
    ensures
        carried("data: "@ + data) == Some(data),
        data.len() == 0 || data[0] != ' ' ==> carried("data:"@ + data) == Some(data),
        carried(line) is Some ==> line.len() >= 5 && line.take(5) == "data:"@,
{
    reveal_strlit("data:");
    reveal_strlit("data: ");
    let spaced = "data: "@ + data;
    let plain = "data:"@ + data;
    assert(spaced.subrange(0, 5) =~= "data:"@);
    assert(plain.subrange(0, 5) =~= "data:"@);
    assert(spaced.skip(5).skip(1) =~= data);
    assert(plain.skip(5) =~= data);
    if carried(line) is Some {
        assert(line.subrange(0, 5) =~= line.take(5));
    }
}

/// What the first `upto` lines of a block carry.
pub open spec fn carried_lines(pieces: Seq<Seq<char>>, upto: int) -> Seq<Seq<char>>
    decreases upto,
{
    if upto <= 0 {
        Seq::empty()
    } else {
        let before = carried_lines(pieces, upto - 1);
        match carried(strings::line_of(pieces, upto - 1)) {
            Some(data) => before.push(data),
            None => before,
        }
    }
}

/// The payload of an event: its data lines, joined; none where it has no data.
pub open spec fn payload_of(block: Seq<char>) -> Option<Seq<char>> {
    let pieces = strings::split_on(block, '\n');
    let data = carried_lines(pieces, pieces.len() as int);
    if data.len() == 0 {
        None
    } else {
        Some(strings::join(data, seq!['\n']))
    }
}

/// The payload of an event is what its data lines carry, one below the other, in order; lines that
/// carry nothing add nothing.
pub proof fn law_a_payload_is_what_the_lines_carry(lines: Seq<Seq<char>>)
    requires
        lines.len() > 0,
        forall|i: int| #![trigger lines[i]]
            0 <= i < lines.len() ==> !lines[i].contains('\n') && !lines[i].contains('\r'),
    ensures
        ({
            let payload = payload_of(strings::join(lines, seq!['\n']));
            &&& (forall|i: int| #![trigger lines[i]]
                0 <= i < lines.len() ==> carried(lines[i]) is None) ==> payload is None
            &&& (forall|i: int| #![trigger lines[i]]
                0 <= i < lines.len() ==> carried(lines[i]) is Some) ==> payload == Some(
                strings::join(lines.map_values(|line: Seq<char>| carried(line)->0), seq!['\n']),
            )
            &&& lines.len() > 1 && carried(lines.last()) is None ==> payload == payload_of(
                strings::join(lines.drop_last(), seq!['\n']),
            )
        }),
{
    strings::lemma_split_join(lines, '\n');
    let count = lines.len() as int;
    lemma_carried_lines(lines, count);
    if lines.len() > 1 {
        let rest = lines.drop_last();
        assert forall|i: int| #![trigger rest[i]] 0 <= i < rest.len() implies !rest[i].contains(
            '\n',
        ) && !rest[i].contains('\r') by {
            assert(rest[i] == lines[i]);
        }
        strings::lemma_split_join(rest, '\n');
        lemma_carried_part(lines, rest, count - 1);
        assert(lines.last() == lines[count - 1]);
        assert(strings::line_of(lines, count - 1) == lines[count - 1]);
    }
}

proof fn lemma_carried_part(lines: Seq<Seq<char>>, rest: Seq<Seq<char>>, upto: int)
    requires
        rest == lines.drop_last(),
        0 <= upto < lines.len(),
        forall|i: int| #![trigger lines[i]] 0 <= i < lines.len() ==> !lines[i].contains('\r'),
    ensures
        carried_lines(lines, upto) == carried_lines(rest, upto),
    decreases upto,
{
    if upto > 0 {
        lemma_carried_part(lines, rest, upto - 1);
        let line = lines[upto - 1];
        assert(rest[upto - 1] == line);
        if line.len() > 0 {
            assert(line.contains(line.last()));
        }
    }
}

proof fn lemma_carried_lines(lines: Seq<Seq<char>>, upto: int)
    requires
        0 <= upto <= lines.len(),
        forall|i: int| #![trigger lines[i]] 0 <= i < lines.len() ==> !lines[i].contains('\r'),
    ensures
        (forall|i: int| #![trigger lines[i]] 0 <= i < upto ==> carried(lines[i]) is None)
            ==> carried_lines(lines, upto).len() == 0,
        (forall|i: int| #![trigger lines[i]] 0 <= i < upto ==> carried(lines[i]) is Some)
            ==> carried_lines(lines, upto) == lines.take(upto).map_values(
            |line: Seq<char>| carried(line)->0,
        ),
        lines.take(lines.len() as int) == lines,
    decreases upto,
{
    assert(lines.take(lines.len() as int) =~= lines);
    if upto > 0 {
        lemma_carried_lines(lines, upto - 1);
        let line = lines[upto - 1];
        if line.len() > 0 {
            assert(line.contains(line.last()));
        }
        assert(strings::line_of(lines, upto - 1) == line);
        assert(lines.take(upto).map_values(|line: Seq<char>| carried(line)->0) =~= lines.take(
            upto - 1,
        ).map_values(|line: Seq<char>| carried(line)->0).push(carried(line)->0));
    } else {
        assert(carried_lines(lines, upto) =~= lines.take(upto).map_values(
            |line: Seq<char>| carried(line)->0,
        ));
    }
}

/// No blank line begins in the first `upto` bytes.
pub open spec fn has_no_blank_line(bytes: Seq<u8>, upto: int) -> bool {
    &&& forall|k: int| 0 <= k < upto ==> !#[trigger] strings::stands_at(bytes, blank_line(), k)
    &&& forall|k: int| 0 <= k < upto ==> !#[trigger] strings::stands_at(bytes, blank_crlf_line(), k)
}

/// A blank line ends an event; what follows is read on its own.
pub proof fn law_a_blank_line_ends_an_event(block: Seq<u8>, rest: Seq<u8>)
    requires
        has_no_blank_line(block + seq![10u8, 10u8] + rest, block.len() as int),
    ensures
        events(block + seq![10u8, 10u8] + rest) == (match payload_of(strings::lossy(block)) {
            Some(payload) => seq![payload],
            None => Seq::empty(),
        }) + events(rest),
{
    lemma_blank_at(block, blank_line(), rest);
    lemma_first_blank(block + blank_line() + rest, block.len() as int);
    lemma_event_ends(block, blank_line(), rest);
}

/// So does one whose lines end in `\r\n`.
pub proof fn law_a_blank_crlf_line_ends_an_event(block: Seq<u8>, rest: Seq<u8>)
    requires
        has_no_blank_line(block + seq![13u8, 10u8, 13u8, 10u8] + rest, block.len() as int),
    ensures
        events(block + seq![13u8, 10u8, 13u8, 10u8] + rest) == (match payload_of(
            strings::lossy(block),
        ) {
            Some(payload) => seq![payload],
            None => Seq::empty(),
        }) + events(rest),
{
    lemma_blank_at(block, blank_crlf_line(), rest);
    lemma_first_blank_crlf(block + blank_crlf_line() + rest, block.len() as int);
    lemma_event_ends(block, blank_crlf_line(), rest);
}

proof fn lemma_first_blank(all: Seq<u8>, end: int)
    requires
        0 <= end,
        has_no_blank_line(all, end),
        strings::stands_at(all, blank_line(), end),
    ensures
        boundary(all) == Some((end, 2int)),
{
    strings::lemma_find_from(all, blank_line(), 0);
    strings::lemma_find_from(all, blank_crlf_line(), 0);
}

proof fn lemma_first_blank_crlf(all: Seq<u8>, end: int)
    requires
        0 <= end,
        has_no_blank_line(all, end),
        strings::stands_at(all, blank_crlf_line(), end),
    ensures
        boundary(all) == Some((end, 4int)),
{
    strings::lemma_find_from(all, blank_line(), 0);
    strings::lemma_find_from(all, blank_crlf_line(), 0);
    assert(all.subrange(end, end + 4)[0] == blank_crlf_line()[0]);
    assert(all[end] == 13);
    assert(!strings::stands_at(all, blank_line(), end)) by {
        if strings::stands_at(all, blank_line(), end) {
            assert(all.subrange(end, end + 2)[0] == blank_line()[0]);
        }
    }
}

proof fn lemma_blank_at(block: Seq<u8>, blank: Seq<u8>, rest: Seq<u8>)
    ensures
        strings::stands_at(block + blank + rest, blank, block.len() as int),
{
    let all = block + blank + rest;
    let end = block.len() as int;
    assert(all.subrange(end, end + blank.len()) =~= blank);
}

proof fn lemma_event_ends(block: Seq<u8>, blank: Seq<u8>, rest: Seq<u8>)
    requires
        blank.len() > 0,
        boundary(block + blank + rest) == Some((block.len() as int, blank.len() as int)),
    ensures
        events(block + blank + rest) == (match payload_of(strings::lossy(block)) {
            Some(payload) => seq![payload],
            None => Seq::empty(),
        }) + events(rest),
{
    let all = block + blank + rest;
    let end = block.len() as int;
    assert(all.skip(end + blank.len()) =~= rest);
    assert(all.take(end) =~= block);
    assert(Seq::<Seq<char>>::empty() + events(rest) =~= events(rest));
}

/// The payloads of every complete event in a buffer.
pub open spec fn events(buffer: Seq<u8>) -> Seq<Seq<char>>
    decreases buffer.len(),
{
    match boundary(buffer) {
        Some((end, blank)) => if 0 <= end && blank > 0 && end + blank <= buffer.len() {
            let rest = events(buffer.skip(end + blank));
            match payload_of(strings::lossy(buffer.take(end))) {
                Some(data) => seq![data] + rest,
                None => rest,
            }
        } else {
            Seq::empty()
        },
        None => Seq::empty(),
    }
}

/// What remains of a buffer after its complete events.
pub open spec fn unfinished(buffer: Seq<u8>) -> Seq<u8>
    decreases buffer.len(),
{
    match boundary(buffer) {
        Some((end, blank)) => if 0 <= end && blank > 0 && end + blank <= buffer.len() {
            unfinished(buffer.skip(end + blank))
        } else {
            buffer
        },
        None => buffer,
    }
}

/// A parser holds the beginning of an event that is not complete.
pub struct Parser {
    buffer: Vec<u8>,
}

impl View for Parser {
    type V = Seq<u8>;

    closed spec fn view(&self) -> Seq<u8> {
        self.buffer@
    }
}

impl Default for Parser {
    fn default() -> (parser: Self)
        ensures
            parser@ == Seq::<u8>::empty(),
    {
        Parser { buffer: Vec::new() }
    }
}

impl Parser {
    /// Feeds bytes and returns the data payloads of every complete event.
    pub fn feed(&mut self, bytes: &[u8]) -> (found: Vec<String>)
        ensures
            strings::texts(found@) == events(old(self)@ + bytes@),
            final(self)@ == unfinished(old(self)@ + bytes@),
    {
        let ghost whole = self.buffer@ + bytes@;
        self.buffer.extend_from_slice(bytes);
        assert(self.buffer@ =~= whole);
        let mut found: Vec<String> = Vec::new();
        assert(strings::texts(found@) + events(whole) =~= events(whole));
        loop
            invariant_except_break
                strings::texts(found@) + events(self.buffer@) == events(whole),
            invariant
                unfinished(self.buffer@) == unfinished(whole),
            ensures
                strings::texts(found@) == events(whole),
                self.buffer@ == unfinished(whole),
            decreases self.buffer@.len(),
        {
            let ghost now = self.buffer@;
            let ghost before = strings::texts(found@);
            let length: usize = self.buffer.len();
            match find_boundary(&self.buffer) {
                Some((end, blank)) => {
                    assert(end + blank <= length);
                    let rest = self.buffer.split_off(end + blank);
                    assert(rest@ =~= now.skip(end + blank));
                    self.buffer.truncate(end);
                    assert(self.buffer@ =~= now.take(end as int));
                    let block = text_from_utf8(&self.buffer);
                    match payload(block.as_str()) {
                        Some(data) => {
                            found.push(data);
                            assert(strings::texts(found@) + events(rest@) =~= before + (seq![data@] + events(
                                rest@,
                            )));
                        },
                        None => {},
                    }
                    self.buffer = rest;
                },
                None => {
                    assert(before + events(now) =~= before);
                    break;
                },
            }
        }
        found
    }
}

fn is_blank_at(buffer: &Vec<u8>, at: usize) -> (blank: bool)
    ensures
        blank == strings::stands_at(buffer@, blank_line(), at as int),
{
    let ghost needle = blank_line();
    if at >= buffer.len() || buffer.len() - at < 2 {
        return false;
    }
    let ghost part = buffer@.subrange(at as int, at + 2);
    let blank = buffer[at] == 10 && buffer[at + 1] == 10;
    proof {
        assert(part[0] == buffer@[at as int] && part[1] == buffer@[at + 1]);
        if blank {
            assert(part =~= needle);
        } else {
            assert(needle[0] == 10 && needle[1] == 10);
        }
    }
    blank
}

fn is_blank_crlf_at(buffer: &Vec<u8>, at: usize) -> (blank: bool)
    ensures
        blank == strings::stands_at(buffer@, blank_crlf_line(), at as int),
{
    let ghost needle = blank_crlf_line();
    if at >= buffer.len() || buffer.len() - at < 4 {
        return false;
    }
    let ghost part = buffer@.subrange(at as int, at + 4);
    let blank = buffer[at] == 13 && buffer[at + 1] == 10 && buffer[at + 2] == 13 && buffer[at + 3]
        == 10;
    proof {
        assert(part[0] == buffer@[at as int] && part[1] == buffer@[at + 1]);
        assert(part[2] == buffer@[at + 2] && part[3] == buffer@[at + 3]);
        if blank {
            assert(part =~= needle);
        } else {
            assert(needle[0] == 13 && needle[1] == 10 && needle[2] == 13 && needle[3] == 10);
        }
    }
    blank
}

/// Where the first event ends, and how long the blank line after it is.
fn find_boundary(buffer: &Vec<u8>) -> (found: Option<(usize, usize)>)
    ensures
        match found {
            Some((end, blank)) => boundary(buffer@) == Some((end as int, blank as int)) && blank > 0
                && end + blank <= buffer@.len(),
            None => boundary(buffer@) is None,
        },
{
    let mut at: usize = 0;
    while at < buffer.len()
        invariant
            at <= buffer@.len(),
            strings::find(buffer@, blank_line()) == strings::find_from(
                buffer@,
                blank_line(),
                at as int,
            ),
            strings::find(buffer@, blank_crlf_line()) == strings::find_from(
                buffer@,
                blank_crlf_line(),
                at as int,
            ),
        decreases buffer@.len() - at,
    {
        proof {
            strings::lemma_find_from(buffer@, blank_line(), at as int);
            strings::lemma_find_from(buffer@, blank_crlf_line(), at as int);
        }
        if is_blank_at(buffer, at) {
            return Some((at, 2));
        }
        if is_blank_crlf_at(buffer, at) {
            return Some((at, 4));
        }
        proof {
            strings::lemma_find_from(buffer@, blank_line(), at + 1);
            strings::lemma_find_from(buffer@, blank_crlf_line(), at + 1);
        }
        at += 1;
    }
    proof {
        strings::lemma_find_from(buffer@, blank_line(), at as int);
        strings::lemma_find_from(buffer@, blank_crlf_line(), at as int);
    }
    None
}

/// The payload of an event, where it has one.
pub fn payload(block: &str) -> (data: Option<String>)
    ensures
        match data {
            Some(data) => payload_of(block@) == Some(data@),
            None => payload_of(block@) is None,
        },
{
    let chars = chars_of(block);
    let bounds = pieces_of(&chars, '\n');
    let prefix = chars_of("data:");
    let ghost pieces = strings::split_on(chars@, '\n');
    let mut data = String::new();
    let mut lines: usize = 0;
    let mut next: usize = 0;
    let count: usize = bounds.len();
    assert(strings::join(carried_lines(pieces, 0), seq!['\n']) =~= Seq::<char>::empty());
    while next < count
        invariant
            next <= count == bounds@.len(),
            lines <= next,
            prefix@ == "data:"@,
            strings::are_bounds(bounds@, chars@, '\n'),
            pieces == strings::split_on(chars@, '\n'),
            lines == carried_lines(pieces, next as int).len(),
            data@ == strings::join(carried_lines(pieces, next as int), seq!['\n']),
        decreases count - next,
    {
        let (start, stop) = bounds[next];
        let ghost piece = pieces[next as int];
        assert(piece == chars@.subrange(start as int, stop as int));
        let end: usize = if next < count - 1 && stop > start && chars[stop - 1] == '\r' {
            stop - 1
        } else {
            stop
        };
        let ghost line = strings::line_of(pieces, next as int);
        proof {
            if stop > start {
                assert(piece.last() == chars@[stop - 1]);
            }
            assert(line =~= chars@.subrange(start as int, end as int));
            lemma_stands_within(chars@, prefix@, start as int, end as int);
        }
        if end - start >= prefix.len() && is_at(&chars, &prefix, start) {
            let mut from: usize = start + prefix.len();
            let ghost rest = line.skip(prefix@.len() as int);
            assert(rest =~= chars@.subrange(from as int, end as int));
            if from < end && chars[from] == ' ' {
                assert(rest[0] == ' ');
                assert(rest.skip(1) =~= chars@.subrange(from + 1, end as int));
                from += 1;
            }
            if lines > 0 {
                data.push('\n');
            }
            let part = text_between(&chars, from, end);
            let ghost before = carried_lines(pieces, next as int);
            let ghost now = before.push(part@);
            assert(carried(line) == Some(part@));
            assert(now.drop_last() =~= before);
            data.append(part.as_str());
            assert(data@ =~= strings::join(now, seq!['\n']));
            lines += 1;
        }
        next += 1;
    }
    if lines == 0 {
        None
    } else {
        Some(data)
    }
}

/// Something stands at the beginning of a stretch where it stands in the whole and ends in
/// time.
proof fn lemma_stands_within(text: Seq<char>, needle: Seq<char>, from: int, to: int)
    requires
        0 <= from <= to <= text.len(),
    ensures
        strings::stands_at(text.subrange(from, to), needle, 0) <==> to - from >= needle.len()
            && strings::stands_at(text, needle, from),
{
    let part = text.subrange(from, to);
    if to - from >= needle.len() {
        assert(part.subrange(0, needle.len() as int) =~= text.subrange(from, from + needle.len()));
    }
}

// ---- Laws ----

proof fn lemma_stands_in_longer(text: Seq<u8>, more: Seq<u8>, needle: Seq<u8>, at: int)
    ensures
        strings::stands_at(text, needle, at) ==> strings::stands_at(text + more, needle, at),
        at + needle.len() <= text.len() && strings::stands_at(text + more, needle, at)
            ==> strings::stands_at(text, needle, at),
{
    if 0 <= at && at + needle.len() <= text.len() {
        assert((text + more).subrange(at, at + needle.len()) =~= text.subrange(
            at,
            at + needle.len(),
        ));
    }
}

/// A complete event stays complete, at the same place, whatever follows.
proof fn lemma_boundary_stays(text: Seq<u8>, more: Seq<u8>)
    requires
        boundary(text) is Some,
    ensures
        boundary(text + more) == boundary(text),
        0 <= (boundary(text)->0).0,
        (boundary(text)->0).1 > 0,
        (boundary(text)->0).0 + (boundary(text)->0).1 <= text.len(),
{
    let lf = blank_line();
    let crlf = blank_crlf_line();
    let all = text + more;
    strings::lemma_find_from(text, lf, 0);
    strings::lemma_find_from(text, crlf, 0);
    strings::lemma_find_from(all, lf, 0);
    strings::lemma_find_from(all, crlf, 0);
    let (end, blank) = boundary(text)->0;
    if blank == 2 {
        lemma_stands_in_longer(text, more, lf, end);
        let at = strings::find(all, lf)->0;
        lemma_stands_in_longer(text, more, lf, at);
        assert(at == end);
        match strings::find(all, crlf) {
            Some(other) => {
                lemma_stands_in_longer(text, more, crlf, other);
                if other < end {
                    assert(other + 4 > text.len());
                    assert(other == end - 1);
                    assert(all.subrange(other, other + 4)[2] == crlf[2]);
                    assert(all.subrange(end, end + 2)[1] == lf[1]);
                    assert(all[end + 1] == 13 && all[end + 1] == 10);
                }
            },
            None => {},
        }
    } else {
        lemma_stands_in_longer(text, more, crlf, end);
        let at = strings::find(all, crlf)->0;
        lemma_stands_in_longer(text, more, crlf, at);
        assert(at == end);
        match strings::find(all, lf) {
            Some(other) => {
                lemma_stands_in_longer(text, more, lf, other);
            },
            None => {},
        }
    }
}

/// Bytes give the same events however they are cut into chunks.
pub proof fn law_chunks_do_not_matter(text: Seq<u8>, more: Seq<u8>)
    ensures
        events(text + more) == events(text) + events(unfinished(text) + more),
        unfinished(text + more) == unfinished(unfinished(text) + more),
    decreases text.len(),
{
    match boundary(text) {
        Some((end, blank)) => {
            lemma_boundary_stays(text, more);
            let rest = text.skip(end + blank);
            assert((text + more).skip(end + blank) =~= rest + more);
            assert((text + more).take(end) =~= text.take(end));
            law_chunks_do_not_matter(rest, more);
            match payload_of(strings::lossy(text.take(end))) {
                Some(data) => {
                    assert(seq![data] + (events(rest) + events(unfinished(rest) + more)) =~= (
                    seq![data] + events(rest)) + events(unfinished(rest) + more));
                },
                None => {},
            }
        },
        None => {
            assert(events(text) + events(text + more) =~= events(text + more));
        },
    }
}

/// What a parser holds back contains no complete event.
pub proof fn law_nothing_complete_is_held_back(buffer: Seq<u8>)
    ensures
        boundary(unfinished(buffer)) is None,
        events(unfinished(buffer)) == Seq::<Seq<char>>::empty(),
    decreases buffer.len(),
{
    match boundary(buffer) {
        Some((end, blank)) => {
            lemma_boundary_stays(buffer, Seq::empty());
            law_nothing_complete_is_held_back(buffer.skip(end + blank));
        },
        None => {},
    }
}

} // verus!
