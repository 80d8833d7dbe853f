//! Replacing stretches of a text: where the old text of each edit stands, which edits clash,
//! and what the text becomes.

use crate::strings;
use crate::strings::{chars_of, count, number, position, same};
use crate::tools::text;
use crate::tools::text::{normalize_for_fuzzy_match, normalize_to_lf};
use vstd::prelude::*;

verus! {

#[derive(Clone, Debug, PartialEq, Eq)]
pub struct Edit {
    pub old_text: String,
    pub new_text: String,
}

/// An edit with line feeds as its only line endings, and the fuzzy form of its old text.
#[derive(Clone, Debug, PartialEq, Eq)]
pub struct Prepared {
    pub old_text: String,
    pub new_text: String,
    pub fuzzy: String,
}

/// What an edit asks for.
pub ghost struct Wanted {
    pub old: Seq<char>,
    pub new: Seq<char>,
    pub fuzzy: Seq<char>,
}

/// A stretch of `len` characters at `at` that an edit replaces.
pub ghost struct Block {
    pub edit: int,
    pub at: int,
    pub len: int,
    pub new: Seq<char>,
}

impl Prepared {
    pub open spec fn wanted(self) -> Wanted {
        Wanted { old: self.old_text@, new: self.new_text@, fuzzy: self.fuzzy@ }
    }
}

pub open spec fn all_wanted(edits: Seq<Prepared>) -> Seq<Wanted> {
    edits.map_values(|edit: Prepared| edit.wanted())
}

/// What an edit asks for, in the form in which edits are matched.
pub open spec fn prepared(edit: Edit) -> Wanted {
    let old = text::to_lf(edit.old_text@);
    Wanted { old, new: text::to_lf(edit.new_text@), fuzzy: text::fuzzy_form(old) }
}

// ---- Error texts ----

/// How an edit is called where there are several.
pub open spec fn edit_name(index: int) -> Seq<char> {
    "edits["@ + strings::decimal(index as nat) + "]"@
}

pub open spec fn empty_error(index: int, total: nat, path: Seq<char>) -> Seq<char> {
    if total == 1 {
        "oldText must not be empty in "@ + path + "."@
    } else {
        edit_name(index) + ".oldText must not be empty in "@ + path + "."@
    }
}

pub open spec fn missing_error(index: int, total: nat, path: Seq<char>) -> Seq<char> {
    if total == 1 {
        "Could not find the exact text in "@ + path
            + ". The old text must match exactly including all whitespace and newlines."@
    } else {
        "Could not find "@ + edit_name(index) + " in "@ + path
            + ". The oldText must match exactly including all whitespace and newlines."@
    }
}

pub open spec fn repeated_error(found: nat, index: int, total: nat, path: Seq<char>) -> Seq<char> {
    if total == 1 {
        "Found "@ + strings::decimal(found) + " occurrences of the text in "@ + path
            + ". The text must be unique. Please provide more context to make it unique."@
    } else {
        "Found "@ + strings::decimal(found) + " occurrences of "@ + edit_name(index) + " in "@ + path
            + ". Each oldText must be unique. Please provide more context to make it unique."@
    }
}

pub open spec fn overlap_error(first: int, second: int, path: Seq<char>) -> Seq<char> {
    edit_name(first) + " and "@ + edit_name(second) + " overlap in "@ + path
        + ". Merge them into one edit or target disjoint regions."@
}

pub open spec fn unchanged_error(total: nat, path: Seq<char>) -> Seq<char> {
    if total == 1 {
        "No changes made to "@ + path
            + ". The replacement produced identical content. This might indicate an issue with special characters or the text not existing as expected."@
    } else {
        "No changes made to "@ + path + ". The replacements produced identical content."@
    }
}

pub open spec fn line_count_error() -> Seq<char> {
    "Cannot preserve unchanged lines because the base content has a different line count."@
}

pub open spec fn outside_error() -> Seq<char> {
    "Replacement range is outside the base content."@
}

fn name_of(index: usize) -> (name: String)
    ensures
        name@ == edit_name(index as int),
{
    let mut name = "edits[".to_owned();
    name.append(number(index as u128).as_str());
    name.append("]");
    name
}

fn empty_message(index: usize, total: usize, path: &str) -> (message: String)
    ensures
        message@ == empty_error(index as int, total as nat, path@),
{
    if total == 1 {
        let mut message = "oldText must not be empty in ".to_owned();
        message.append(path);
        message.append(".");
        message
    } else {
        let mut message = name_of(index);
        message.append(".oldText must not be empty in ");
        message.append(path);
        message.append(".");
        message
    }
}

fn missing_message(index: usize, total: usize, path: &str) -> (message: String)
    ensures
        message@ == missing_error(index as int, total as nat, path@),
{
    if total == 1 {
        let mut message = "Could not find the exact text in ".to_owned();
        message.append(path);
        message.append(". The old text must match exactly including all whitespace and newlines.");
        message
    } else {
        let mut message = "Could not find ".to_owned();
        message.append(name_of(index).as_str());
        message.append(" in ");
        message.append(path);
        message.append(". The oldText must match exactly including all whitespace and newlines.");
        message
    }
}

fn repeated_message(found: u128, index: usize, total: usize, path: &str) -> (message: String)
    ensures
        message@ == repeated_error(found as nat, index as int, total as nat, path@),
{
    let mut message = "Found ".to_owned();
    message.append(number(found).as_str());
    if total == 1 {
        message.append(" occurrences of the text in ");
        message.append(path);
        message.append(". The text must be unique. Please provide more context to make it unique.");
    } else {
        message.append(" occurrences of ");
        message.append(name_of(index).as_str());
        message.append(" in ");
        message.append(path);
        message.append(
            ". Each oldText must be unique. Please provide more context to make it unique.",
        );
    }
    message
}

fn overlap_message(first: usize, second: usize, path: &str) -> (message: String)
    ensures
        message@ == overlap_error(first as int, second as int, path@),
{
    let mut message = name_of(first);
    message.append(" and ");
    message.append(name_of(second).as_str());
    message.append(" overlap in ");
    message.append(path);
    message.append(". Merge them into one edit or target disjoint regions.");
    message
}

fn unchanged_message(total: usize, path: &str) -> (message: String)
    ensures
        message@ == unchanged_error(total as nat, path@),
{
    let mut message = "No changes made to ".to_owned();
    message.append(path);
    if total == 1 {
        message.append(
            ". The replacement produced identical content. This might indicate an issue with special characters or the text not existing as expected.",
        );
    } else {
        message.append(". The replacements produced identical content.");
    }
    message
}

// ---- Finding the old texts ----

/// The first edit whose old text is empty.
pub open spec fn first_empty(wanted: Seq<Wanted>, from: int) -> Option<int>
    decreases wanted.len() - from,
{
    if from < 0 || from >= wanted.len() {
        None
    } else if wanted[from].old.len() == 0 {
        Some(from)
    } else {
        first_empty(wanted, from + 1)
    }
}

/// An old text that stands in a text only in its fuzzy form.
pub open spec fn only_fuzzy(normalized: Seq<char>, fuzzy: Seq<char>, wanted: Wanted) -> bool {
    !strings::holds(normalized, wanted.old) && strings::holds(fuzzy, wanted.fuzzy)
}

/// Whether some edit matches only in fuzzy form.
pub open spec fn needs_fuzzy(normalized: Seq<char>, fuzzy: Seq<char>, wanted: Seq<Wanted>) -> bool {
    exists|i: int| 0 <= i < wanted.len() && only_fuzzy(normalized, fuzzy, #[trigger] wanted[i])
}

/// Where the old text of an edit stands and how long it is there: as it is in `base`, or else
/// in its fuzzy form in `fuzzy_base`.
pub open spec fn located(base: Seq<char>, fuzzy_base: Seq<char>, wanted: Wanted) -> Option<
    (int, int),
> {
    match strings::find(base, wanted.old) {
        Some(at) => Some((at, wanted.old.len() as int)),
        None => match strings::find(fuzzy_base, wanted.fuzzy) {
            Some(at) => Some((at, wanted.fuzzy.len() as int)),
            None => None,
        },
    }
}

/// The blocks of the first `upto` edits, in the order of the edits; or what the first edit
/// that is not there, or there more than once, is answered.
pub open spec fn blocks_of(
    base: Seq<char>,
    fuzzy_base: Seq<char>,
    wanted: Seq<Wanted>,
    upto: int,
    path: Seq<char>,
) -> Result<Seq<Block>, Seq<char>>
    decreases upto,
{
    if upto <= 0 {
        Ok(Seq::empty())
    } else {
        let index = upto - 1;
        match blocks_of(base, fuzzy_base, wanted, index, path) {
            Err(error) => Err(error),
            Ok(blocks) => match located(base, fuzzy_base, wanted[index]) {
                None => Err(missing_error(index, wanted.len(), path)),
                Some((at, len)) => {
                    let found = strings::occurrences_from(fuzzy_base, wanted[index].fuzzy, 0);
                    if found > 1 {
                        Err(repeated_error(found, index, wanted.len(), path))
                    } else {
                        Ok(blocks.push(Block { edit: index, at, len, new: wanted[index].new }))
                    }
                },
            },
        }
    }
}

proof fn lemma_blocks_error(
    base: Seq<char>,
    fuzzy_base: Seq<char>,
    wanted: Seq<Wanted>,
    failed: int,
    upto: int,
    path: Seq<char>,
)
    requires
        failed <= upto,
        blocks_of(base, fuzzy_base, wanted, failed, path) is Err,
    ensures
        blocks_of(base, fuzzy_base, wanted, upto, path) == blocks_of(
            base,
            fuzzy_base,
            wanted,
            failed,
            path,
        ),
    decreases upto - failed,
{
    if failed < upto {
        lemma_blocks_error(base, fuzzy_base, wanted, failed, upto - 1, path);
    }
}

/// A block put behind the blocks that begin no later.
pub open spec fn inserted(sorted: Seq<Block>, block: Block) -> Seq<Block>
    decreases sorted.len(),
{
    if sorted.len() == 0 || sorted.last().at <= block.at {
        sorted.push(block)
    } else {
        inserted(sorted.drop_last(), block).push(sorted.last())
    }
}

/// The blocks by where they begin; those that begin together keep their order.
pub open spec fn in_order(blocks: Seq<Block>) -> Seq<Block>
    decreases blocks.len(),
{
    if blocks.len() == 0 {
        Seq::empty()
    } else {
        inserted(in_order(blocks.drop_last()), blocks.last())
    }
}

/// The first block that reaches into the one after it.
pub open spec fn first_overlap(sorted: Seq<Block>, from: int) -> Option<int>
    decreases sorted.len() - from,
{
    if from < 0 || from + 1 >= sorted.len() {
        None
    } else if sorted[from].at + sorted[from].len > sorted[from + 1].at {
        Some(from)
    } else {
        first_overlap(sorted, from + 1)
    }
}

/// Blocks that follow each other within a stretch of text.
pub open spec fn follow_within(blocks: Seq<Block>, from: int, to: int) -> bool {
    &&& forall|i: int| #![trigger blocks[i]]
        0 <= i < blocks.len() ==> from <= blocks[i].at && 0 <= blocks[i].len && blocks[i].at
            + blocks[i].len <= to
    &&& forall|i: int, j: int| #![trigger blocks[i], blocks[j]]
        0 <= i < j < blocks.len() ==> blocks[i].at + blocks[i].len <= blocks[j].at
}

proof fn lemma_no_overlap(sorted: Seq<Block>, from: int)
    requires
        0 <= from,
        first_overlap(sorted, from) is None,
        forall|i: int| #![trigger sorted[i]] 0 <= i < sorted.len() ==> 0 <= sorted[i].len,
    ensures
        forall|i: int, j: int| #![trigger sorted[i], sorted[j]]
            from <= i < j < sorted.len() ==> sorted[i].at + sorted[i].len <= sorted[j].at,
    decreases sorted.len() - from,
{
    if from + 1 < sorted.len() {
        lemma_no_overlap(sorted, from + 1);
        assert forall|i: int, j: int| #![trigger sorted[i], sorted[j]]
            from <= i < j < sorted.len() implies sorted[i].at + sorted[i].len <= sorted[j].at by {
            if i == from && j > from + 1 {
                assert(sorted[from + 1].at + sorted[from + 1].len <= sorted[j].at);
            }
        }
    }
}

/// Sorting keeps every block, and puts each behind those that begin earlier.
pub proof fn law_blocks_are_sorted(blocks: Seq<Block>)
    ensures
        in_order(blocks).to_multiset() == blocks.to_multiset(),
        forall|i: int, j: int| #![trigger in_order(blocks)[i], in_order(blocks)[j]]
            0 <= i < j < in_order(blocks).len() ==> in_order(blocks)[i].at <= in_order(
                blocks,
            )[j].at,
    decreases blocks.len(),
{
    broadcast use vstd::seq_lib::group_to_multiset_ensures;

    if blocks.len() > 0 {
        let before = in_order(blocks.drop_last());
        law_blocks_are_sorted(blocks.drop_last());
        lemma_inserted(before, blocks.last());
        assert(blocks =~= blocks.drop_last().push(blocks.last()));
    }
}

proof fn lemma_inserted(sorted: Seq<Block>, block: Block)
    requires
        forall|i: int, j: int| #![trigger sorted[i], sorted[j]]
            0 <= i < j < sorted.len() ==> sorted[i].at <= sorted[j].at,
    ensures
        inserted(sorted, block).to_multiset() == sorted.to_multiset().insert(block),
        inserted(sorted, block).len() == sorted.len() + 1,
        forall|i: int| #![trigger inserted(sorted, block)[i]]
            0 <= i <= sorted.len() ==> inserted(sorted, block)[i] == block || exists|k: int|
                0 <= k < sorted.len() && inserted(sorted, block)[i] == #[trigger] sorted[k],
        forall|i: int, j: int| #![trigger inserted(sorted, block)[i], inserted(sorted, block)[j]]
            0 <= i < j < inserted(sorted, block).len() ==> inserted(sorted, block)[i].at
                <= inserted(sorted, block)[j].at,
    decreases sorted.len(),
{
    broadcast use vstd::seq_lib::group_to_multiset_ensures;

    let now = inserted(sorted, block);
    if sorted.len() == 0 || sorted.last().at <= block.at {
        assert forall|i: int| #![trigger now[i]] 0 <= i <= sorted.len() implies now[i] == block
            || exists|k: int| 0 <= k < sorted.len() && now[i] == #[trigger] sorted[k] by {
            if i < sorted.len() {
                assert(now[i] == sorted[i]);
            }
        }
        assert forall|i: int, j: int| #![trigger now[i], now[j]]
            0 <= i < j < now.len() implies now[i].at <= now[j].at by {
            assert(now[i] == sorted[i]);
            assert(sorted[i].at <= sorted[sorted.len() - 1].at);
            if j < sorted.len() {
                assert(now[j] == sorted[j]);
            }
        }
    } else {
        let rest = sorted.drop_last();
        lemma_inserted(rest, block);
        let before = inserted(rest, block);
        assert(sorted =~= rest.push(sorted.last()));
        assert forall|i: int| #![trigger now[i]] 0 <= i <= sorted.len() implies now[i] == block
            || exists|k: int| 0 <= k < sorted.len() && now[i] == #[trigger] sorted[k] by {
            if i < sorted.len() {
                assert(now[i] == before[i]);
                if before[i] != block {
                    let k = choose|k: int| 0 <= k < rest.len() && before[i] == #[trigger] rest[k];
                    assert(sorted[k] == now[i]);
                }
            } else {
                assert(now[i] == sorted[sorted.len() - 1]);
            }
        }
        assert forall|i: int, j: int| #![trigger now[i], now[j]]
            0 <= i < j < now.len() implies now[i].at <= now[j].at by {
            assert(now[i] == before[i]);
            if j < before.len() {
                assert(now[j] == before[j]);
            } else if before[i] != block {
                let k = choose|k: int| 0 <= k < rest.len() && before[i] == #[trigger] rest[k];
                assert(sorted[k].at <= sorted[sorted.len() - 1].at);
            }
        }
        assert(now.to_multiset() =~= sorted.to_multiset().insert(block));
    }
}

// ---- Replacing ----

/// `content`, which begins at position `offset`, with every block replaced.
pub open spec fn spliced(content: Seq<char>, blocks: Seq<Block>, offset: int) -> Seq<char>
    decreases blocks.len(),
{
    if blocks.len() == 0 {
        content
    } else {
        let last = blocks.last();
        spliced(content.take(last.at - offset), blocks.drop_last(), offset) + last.new
            + content.skip(last.at - offset + last.len)
    }
}

/// What follows the last block stays as it is.
proof fn lemma_spliced_tail(content: Seq<char>, blocks: Seq<Block>, offset: int, kept: int)
    requires
        0 <= kept <= content.len(),
        blocks.len() > 0 ==> offset <= blocks.last().at && 0 <= blocks.last().len
            && blocks.last().at + blocks.last().len <= offset + kept,
    ensures
        spliced(content, blocks, offset) == spliced(content.take(kept), blocks, offset)
            + content.skip(kept),
{
    if blocks.len() == 0 {
        assert(content =~= content.take(kept) + content.skip(kept));
    } else {
        let at = blocks.last().at - offset;
        let end = at + blocks.last().len;
        assert(content.take(kept).take(at) =~= content.take(at));
        assert(content.take(kept).skip(end) + content.skip(kept) =~= content.skip(end));
        assert(spliced(content, blocks, offset) =~= spliced(content.take(kept), blocks, offset)
            + content.skip(kept));
    }
}

/// Replacing blocks leaves the text before the first and after the last of them as it was.
pub proof fn law_text_around_the_blocks_stays(content: Seq<char>, blocks: Seq<Block>)
    requires
        blocks.len() > 0,
        follow_within(blocks, 0, content.len() as int),
    ensures
        ({
            let new = spliced(content, blocks, 0);
            let head = blocks.first().at;
            let tail = content.skip(blocks.last().at + blocks.last().len);
            &&& head + tail.len() <= new.len()
            &&& new.take(head) == content.take(head)
            &&& new.skip(new.len() - tail.len()) == tail
        }),
{
    lemma_spliced_head(content, blocks);
    let new = spliced(content, blocks, 0);
    let tail = content.skip(blocks.last().at + blocks.last().len);
    let front = spliced(content.take(blocks.last().at), blocks.drop_last(), 0) + blocks.last().new;
    assert(new == front + tail);
    assert(new.skip(new.len() - tail.len()) =~= tail);
    assert(new.take(blocks.first().at) =~= content.take(blocks.first().at));
}

proof fn lemma_spliced_head(content: Seq<char>, blocks: Seq<Block>)
    requires
        follow_within(blocks, 0, content.len() as int),
    ensures
        blocks.len() > 0 ==> ({
            let head = blocks.first().at;
            let front = spliced(content.take(blocks.last().at), blocks.drop_last(), 0);
            &&& head <= front.len()
            &&& front.take(head) == content.take(head)
        }),
    decreases blocks.len(),
{
    if blocks.len() > 0 {
        let head = blocks.first().at;
        let rest = blocks.drop_last();
        let upto = content.take(blocks.last().at);
        assert(blocks[0] == blocks.first());
        assert(blocks[blocks.len() - 1] == blocks.last());
        if rest.len() == 0 {
            assert(upto.take(head) =~= content.take(head));
        } else {
            assert forall|i: int| #![trigger rest[i]] 0 <= i < rest.len() implies 0 <= rest[i].at && 0
                <= rest[i].len && rest[i].at + rest[i].len <= upto.len() by {
                assert(blocks[i] == rest[i]);
                assert(blocks[i].at + blocks[i].len <= blocks[blocks.len() - 1].at);
            }
            assert forall|i: int, j: int| #![trigger rest[i], rest[j]]
                0 <= i < j < rest.len() implies rest[i].at + rest[i].len <= rest[j].at by {
                assert(blocks[i] == rest[i] && blocks[j] == rest[j]);
            }
            lemma_spliced_head(upto, rest);
            assert(rest.first() == blocks.first());
            assert(rest.last() == rest[rest.len() - 1]);
            let front = spliced(upto, rest, 0);
            let inner = spliced(upto.take(rest.last().at), rest.drop_last(), 0);
            assert(front == inner + rest.last().new + upto.skip(rest.last().at + rest.last().len));
            assert(rest[0].at <= rest[rest.len() - 1].at);
            assert(front.take(head) =~= inner.take(head));
            assert(upto.take(head) =~= content.take(head));
        }
    }
}

/// A block that was found, with what is to stand in its place.
struct Matched {
    edit_index: usize,
    index: usize,
    length: usize,
    new_text: String,
}

impl Matched {
    spec fn block(self) -> Block {
        Block {
            edit: self.edit_index as int,
            at: self.index as int,
            len: self.length as int,
            new: self.new_text@,
        }
    }
}

spec fn blocks_in(matched: Seq<Matched>) -> Seq<Block> {
    matched.map_values(|one: Matched| one.block())
}

fn append_chars(text: &mut String, chars: &Vec<char>, from: usize, to: usize)
    requires
        from <= to <= chars@.len(),
    ensures
        final(text)@ == old(text)@ + chars@.subrange(from as int, to as int),
{
    let ghost before = text@;
    let mut at: usize = from;
    assert(before + chars@.subrange(from as int, from as int) =~= before);
    while at < to
        invariant
            from <= at <= to <= chars@.len(),
            text@ == before + chars@.subrange(from as int, at as int),
        decreases to - at,
    {
        text.push(chars[at]);
        assert(chars@.subrange(from as int, at as int).push(chars@[at as int]) =~= chars@.subrange(
            from as int,
            at + 1,
        ));
        at += 1;
    }
}

/// Appends `chars[from..to]` with the blocks `first..last` replaced.
fn replace_all(
    text: &mut String,
    chars: &Vec<char>,
    from: usize,
    to: usize,
    matched: &Vec<Matched>,
    first: usize,
    last: usize,
)
    requires
        from <= to <= chars@.len(),
        first <= last <= matched@.len(),
        follow_within(
            blocks_in(matched@).subrange(first as int, last as int),
            from as int,
            to as int,
        ),
    ensures
        final(text)@ == old(text)@ + spliced(
            chars@.subrange(from as int, to as int),
            blocks_in(matched@).subrange(first as int, last as int),
            from as int,
        ),
{
    let ghost before = text@;
    let ghost content = chars@.subrange(from as int, to as int);
    let ghost blocks = blocks_in(matched@).subrange(first as int, last as int);
    let mut next: usize = first;
    let mut at: usize = from;
    assert(content.take(0) =~= Seq::<char>::empty());
    assert(blocks.take(0) =~= Seq::<Block>::empty());
    while next < last
        invariant
            first <= next <= last <= matched@.len(),
            from <= at <= to <= chars@.len(),
            content == chars@.subrange(from as int, to as int),
            blocks == blocks_in(matched@).subrange(first as int, last as int),
            follow_within(blocks, from as int, to as int),
            next == first ==> at == from,
            next > first ==> at == blocks[next - first - 1].at + blocks[next - first - 1].len,
            text@ == before + spliced(
                content.take(at - from),
                blocks.take(next - first),
                from as int,
            ),
        decreases last - next,
    {
        let one = &matched[next];
        let ghost k = next - first;
        let ghost block = blocks[k];
        assert(block == one.block());
        assert(next > first ==> blocks[k - 1].at + blocks[k - 1].len <= block.at);
        let ghost done = blocks.take(k);
        append_chars(text, chars, at, one.index);
        proof {
            assert(done.len() > 0 ==> done.last() == blocks[k - 1]);
            let upto = content.take(block.at - from);
            lemma_spliced_tail(upto, done, from as int, at - from);
            assert(upto.take(at - from) =~= content.take(at - from));
            assert(upto.skip(at - from) =~= chars@.subrange(at as int, one.index as int));
            assert(text@ =~= before + spliced(upto, done, from as int));
        }
        text.append(one.new_text.as_str());
        at = one.index + one.length;
        proof {
            let now = blocks.take(k + 1);
            let upto = content.take(at - from);
            assert(now.drop_last() =~= done);
            assert(now.last() == block);
            assert(upto.take(block.at - from) =~= content.take(block.at - from));
            assert(upto.skip(block.at - from + block.len) =~= Seq::<char>::empty());
            assert(text@ =~= before + spliced(upto, now, from as int));
        }
        next += 1;
    }
    let ghost middle = text@;
    append_chars(text, chars, at, to);
    proof {
        assert(blocks.take(last - first) =~= blocks);
        if blocks.len() > 0 {
            assert(blocks.last() == blocks[last - first - 1]);
        }
        lemma_spliced_tail(content, blocks, from as int, at - from);
        assert(content.skip(at - from) =~= chars@.subrange(at as int, to as int));
        assert(text@ =~= before + spliced(content, blocks, from as int));
    }
}

// ---- Lines that no edit touches ----

/// Where the lines of `content` stand, each with the line feed that ends it: a character at
/// the beginning or after a line feed opens a line.
pub open spec fn line_spans(content: Seq<char>) -> Seq<(int, int)>
    decreases content.len(),
{
    if content.len() == 0 {
        Seq::empty()
    } else {
        let before = line_spans(content.drop_last());
        let end = content.len() as int;
        if content.len() == 1 || content[end - 2] == '\n' {
            before.push((end - 1, end))
        } else {
            before.drop_last().push((before.last().0, end))
        }
    }
}

/// Lines follow each other and cover the whole text.
pub proof fn law_lines_cover_the_text(content: Seq<char>)
    ensures
        content.len() > 0 <==> line_spans(content).len() > 0,
        content.len() > 0 ==> line_spans(content)[0].0 == 0 && line_spans(content).last().1
            == content.len(),
        forall|i: int| #![trigger line_spans(content)[i]]
            0 <= i < line_spans(content).len() ==> 0 <= line_spans(content)[i].0 < line_spans(
                content,
            )[i].1 <= content.len(),
        forall|i: int, j: int| #![trigger line_spans(content)[i], line_spans(content)[j]]
            0 <= i && j == i + 1 && j < line_spans(content).len() ==> line_spans(content)[i].1
                == line_spans(content)[j].0,
    decreases content.len(),
{
    if content.len() > 0 {
        let before = line_spans(content.drop_last());
        let spans = line_spans(content);
        law_lines_cover_the_text(content.drop_last());
        let end = content.len() as int;
        if content.len() == 1 || content[end - 2] == '\n' {
            assert(spans == before.push((end - 1, end)));
            assert forall|i: int, j: int| #![trigger spans[i], spans[j]]
                0 <= i && j == i + 1 && j < spans.len() implies spans[i].1 == spans[j].0 by {
                assert(spans[i] == before[i]);
                if j < before.len() {
                    assert(spans[j] == before[j]);
                } else {
                    assert(before.last() == before[i]);
                }
            }
            assert forall|i: int| #![trigger spans[i]] 0 <= i < spans.len() implies 0 <= spans[i].0
                < spans[i].1 <= content.len() by {
                if i < before.len() {
                    assert(spans[i] == before[i]);
                }
            }
            if before.len() > 0 {
                assert(spans[0] == before[0]);
            }
        } else {
            let last = before.len() - 1;
            assert(before.last() == before[last]);
            assert forall|i: int, j: int| #![trigger spans[i], spans[j]]
                0 <= i && j == i + 1 && j < spans.len() implies spans[i].1 == spans[j].0 by {
                assert(spans[i] == before[i]);
                assert(spans[j].0 == before[j].0);
            }
            assert forall|i: int| #![trigger spans[i]] 0 <= i < spans.len() implies 0 <= spans[i].0
                < spans[i].1 <= content.len() by {
                assert(spans[i].0 == before[i].0);
                if i < last {
                    assert(spans[i] == before[i]);
                }
            }
            assert(spans[0].0 == before[0].0);
        }
    }
}

/// A line ends with a line feed, or with the text, and holds no line feed before its end.
pub proof fn law_lines_end_at_line_feeds(content: Seq<char>, i: int)
    requires
        0 <= i < line_spans(content).len(),
    ensures
        i + 1 < line_spans(content).len() ==> content[line_spans(content)[i].1 - 1] == '\n',
        forall|k: int| #![trigger content[k]]
            line_spans(content)[i].0 <= k < line_spans(content)[i].1 - 1 ==> content[k] != '\n',
    decreases content.len(),
{
    let before = line_spans(content.drop_last());
    let spans = line_spans(content);
    let shorter = content.drop_last();
    let end = content.len() as int;
    law_lines_cover_the_text(shorter);
    law_lines_cover_the_text(content);
    if content.len() == 1 || content[end - 2] == '\n' {
        if i < before.len() {
            assert(spans[i] == before[i]);
            law_lines_end_at_line_feeds(shorter, i);
            if i + 1 == before.len() {
                assert(before.last() == before[i]);
            } else {
                assert(shorter[before[i].1 - 1] == content[before[i].1 - 1]);
            }
            assert forall|k: int| #![trigger content[k]]
                spans[i].0 <= k < spans[i].1 - 1 implies content[k] != '\n' by {
                assert(shorter[k] == content[k]);
            }
        }
    } else {
        law_lines_end_at_line_feeds(shorter, i);
        if i + 1 < before.len() {
            assert(spans[i] == before[i]);
            assert(shorter[before[i].1 - 1] == content[before[i].1 - 1]);
        } else {
            assert(before.last() == before[i]);
        }
        assert forall|k: int| #![trigger content[k]]
            spans[i].0 <= k < spans[i].1 - 1 implies content[k] != '\n' by {
            assert(shorter[k] == content[k]);
        }
    }
}

proof fn lemma_spans_increase(content: Seq<char>, i: int, j: int)
    requires
        0 <= i < j < line_spans(content).len(),
    ensures
        line_spans(content)[i].1 <= line_spans(content)[j].0,
    decreases j - i,
{
    law_lines_cover_the_text(content);
    let spans = line_spans(content);
    if i + 1 < j {
        lemma_spans_increase(content, i, j - 1);
        assert(spans[j - 1].1 == spans[j].0);
    } else {
        assert(spans[i].1 == spans[j].0);
    }
}

/// Where line `i` begins; past the last line, where the text ends.
pub open spec fn line_start(content: Seq<char>, i: int) -> int {
    if 0 <= i < line_spans(content).len() {
        line_spans(content)[i].0
    } else {
        content.len() as int
    }
}

/// The first line from `from` on that holds position `at`.
pub open spec fn line_at(spans: Seq<(int, int)>, at: int, from: int) -> Option<int>
    decreases spans.len() - from,
{
    if from < 0 || from >= spans.len() {
        None
    } else if spans[from].0 <= at < spans[from].1 {
        Some(from)
    } else {
        line_at(spans, at, from + 1)
    }
}

/// The first line from `from` on that ends at `end` or later.
pub open spec fn line_reaching(spans: Seq<(int, int)>, end: int, from: int) -> Option<int>
    decreases spans.len() - from,
{
    if from < 0 || from >= spans.len() {
        None
    } else if spans[from].1 >= end {
        Some(from)
    } else {
        line_reaching(spans, end, from + 1)
    }
}

/// The lines that a block touches: the first, and the one after the last.
pub open spec fn line_range(spans: Seq<(int, int)>, block: Block) -> Option<(int, int)> {
    match line_at(spans, block.at, 0) {
        None => None,
        Some(start) => match line_reaching(spans, block.at + block.len, start) {
            None => None,
            Some(last) => Some((start, last + 1)),
        },
    }
}

/// Lines `start..end`, which the blocks `first..last` touch.
pub ghost struct Touched {
    pub start: int,
    pub end: int,
    pub first: int,
    pub last: int,
}

/// The touched lines in groups: a block that begins in the lines of the group before it joins
/// that group. None where a block reaches outside the lines.
pub open spec fn touched_lines(spans: Seq<(int, int)>, blocks: Seq<Block>) -> Option<Seq<Touched>>
    decreases blocks.len(),
{
    if blocks.len() == 0 {
        Some(Seq::empty())
    } else {
        let index = blocks.len() - 1;
        match (touched_lines(spans, blocks.drop_last()), line_range(spans, blocks.last())) {
            (Some(groups), Some((start, end))) => if groups.len() > 0 && start < groups.last().end {
                let last = groups.last();
                Some(
                    groups.drop_last().push(
                        Touched {
                            start: last.start,
                            end: if last.end >= end {
                                last.end
                            } else {
                                end
                            },
                            first: last.first,
                            last: index + 1,
                        },
                    ),
                )
            } else {
                Some(groups.push(Touched { start, end, first: index, last: index + 1 }))
            },
            _ => None,
        }
    }
}

/// The line after the last touched one.
pub open spec fn next_line(groups: Seq<Touched>) -> int {
    if groups.len() == 0 {
        0
    } else {
        groups.last().end
    }
}

/// The text up to the end of the last group: touched lines come from `base` with their blocks
/// replaced, the lines between them from `original`.
pub open spec fn rewritten(
    original: Seq<char>,
    base: Seq<char>,
    groups: Seq<Touched>,
    blocks: Seq<Block>,
) -> Seq<char>
    decreases groups.len(),
{
    if groups.len() == 0 {
        Seq::empty()
    } else {
        let group = groups.last();
        let before = groups.drop_last();
        let from = line_start(base, group.start);
        let to = line_start(base, group.end);
        rewritten(original, base, before, blocks) + original.subrange(
            line_start(original, next_line(before)),
            line_start(original, group.start),
        ) + spliced(base.subrange(from, to), blocks.subrange(group.first, group.last), from)
    }
}

/// `base` with the blocks replaced where they touch a line, and `original` everywhere else.
pub open spec fn preserved(original: Seq<char>, base: Seq<char>, blocks: Seq<Block>) -> Result<
    Seq<char>,
    Seq<char>,
> {
    if line_spans(original).len() != line_spans(base).len() {
        Err(line_count_error())
    } else {
        match touched_lines(line_spans(base), blocks) {
            None => Err(outside_error()),
            Some(groups) => Ok(
                rewritten(original, base, groups, blocks) + original.skip(
                    line_start(original, next_line(groups)),
                ),
            ),
        }
    }
}

/// Groups that stand behind each other among `lines` lines, their blocks in a row.
pub open spec fn groups_follow(groups: Seq<Touched>, lines: nat, blocks: nat) -> bool {
    &&& forall|i: int| #![trigger groups[i]]
        0 <= i < groups.len() ==> {
            &&& 0 <= groups[i].start < groups[i].end <= lines
            &&& 0 <= groups[i].first < groups[i].last <= blocks
        }
    &&& forall|i: int, j: int| #![trigger groups[i], groups[j]]
        0 <= i < j < groups.len() ==> groups[i].end <= groups[j].start && groups[i].last
            <= groups[j].first
}

proof fn lemma_line_at(spans: Seq<(int, int)>, at: int, from: int)
    requires
        0 <= from,
    ensures
        line_at(spans, at, from) matches Some(i) ==> from <= i < spans.len() && spans[i].0 <= at
            < spans[i].1,
    decreases spans.len() - from,
{
    if from < spans.len() {
        lemma_line_at(spans, at, from + 1);
    }
}

proof fn lemma_line_reaching(spans: Seq<(int, int)>, end: int, from: int)
    requires
        0 <= from,
    ensures
        line_reaching(spans, end, from) matches Some(i) ==> from <= i < spans.len() && spans[i].1
            >= end && forall|k: int| #![trigger spans[k]] from <= k < i ==> spans[k].1 < end,
    decreases spans.len() - from,
{
    if from < spans.len() {
        lemma_line_reaching(spans, end, from + 1);
    }
}

proof fn lemma_line_start(content: Seq<char>, i: int, j: int)
    requires
        0 <= i <= j <= line_spans(content).len(),
    ensures
        0 <= line_start(content, i) <= line_start(content, j) <= content.len(),
        i < j ==> line_start(content, j) == line_spans(content)[j - 1].1,
{
    law_lines_cover_the_text(content);
    let spans = line_spans(content);
    if i < j {
        if j < spans.len() {
            lemma_spans_increase(content, i, j);
            assert(spans[j - 1].1 == spans[j].0);
        } else {
            assert(spans.last() == spans[j - 1]);
        }
    }
    if i < spans.len() {
        assert(0 <= spans[i].0);
        assert(spans[i].0 < spans[i].1);
    }
    if j < spans.len() {
        assert(0 <= spans[j].0);
        assert(spans[j].0 < spans[j].1);
    }
}

/// The groups follow each other, and every block stands within the lines of its group.
proof fn lemma_touched_lines(base: Seq<char>, blocks: Seq<Block>)
    requires
        touched_lines(line_spans(base), blocks) is Some,
        forall|i: int| #![trigger blocks[i]]
            0 <= i < blocks.len() ==> 0 <= blocks[i].at && 0 <= blocks[i].len,
        forall|i: int, j: int| #![trigger blocks[i], blocks[j]]
            0 <= i < j < blocks.len() ==> blocks[i].at + blocks[i].len <= blocks[j].at,
    ensures
        ({
            let groups = touched_lines(line_spans(base), blocks)->0;
            &&& groups_follow(groups, line_spans(base).len(), blocks.len())
            &&& blocks.len() > 0 ==> groups.len() > 0 && groups.last().last == blocks.len()
            &&& forall|g: int, i: int| #![trigger groups[g], blocks[i]]
                0 <= g < groups.len() && groups[g].first <= i < groups[g].last ==> line_start(
                    base,
                    groups[g].start,
                ) <= blocks[i].at && blocks[i].at + blocks[i].len <= line_start(base, groups[g].end)
        }),
    decreases blocks.len(),
{
    let spans = line_spans(base);
    if blocks.len() > 0 {
        let rest = blocks.drop_last();
        let block = blocks.last();
        let index = blocks.len() - 1;
        assert forall|i: int| #![trigger rest[i]] 0 <= i < rest.len() implies 0 <= rest[i].at && 0
            <= rest[i].len by {
            assert(blocks[i] == rest[i]);
        }
        assert forall|i: int, j: int| #![trigger rest[i], rest[j]]
            0 <= i < j < rest.len() implies rest[i].at + rest[i].len <= rest[j].at by {
            assert(blocks[i] == rest[i] && blocks[j] == rest[j]);
        }
        lemma_touched_lines(base, rest);
        let before = touched_lines(spans, rest)->0;
        let groups = touched_lines(spans, blocks)->0;
        let (start, end) = line_range(spans, block)->0;
        lemma_line_at(spans, block.at, 0);
        lemma_line_reaching(spans, block.at + block.len, start);
        lemma_line_start(base, start, end);
        assert(blocks[index] == block);
        let top = groups.len() - 1;
        if before.len() > 0 && start < before.last().end {
            let old_top = before[top];
            assert(before.last() == old_top);
            assert(forall|g: int| #![trigger groups[g]] 0 <= g < top ==> groups[g] == before[g]);
            lemma_line_start(base, old_top.start, old_top.end);
            lemma_line_start(base, old_top.end, groups[top].end);
            lemma_line_start(base, end, groups[top].end);
            assert forall|g: int, i: int| #![trigger groups[g], blocks[i]]
                0 <= g < groups.len() && groups[g].first <= i < groups[g].last implies line_start(
                base,
                groups[g].start,
            ) <= blocks[i].at && blocks[i].at + blocks[i].len <= line_start(
                base,
                groups[g].end,
            ) by {
                if i < index {
                    assert(rest[i] == blocks[i]);
                    assert(before[g].first <= i < before[g].last);
                } else {
                    assert(g == top);
                    let k = old_top.first;
                    assert(rest[k] == blocks[k]);
                    assert(line_start(base, before[top].start) <= rest[k].at);
                    assert(blocks[k].at + blocks[k].len <= blocks[index].at);
                }
            }
            assert(groups_follow(groups, spans.len(), blocks.len()));
        } else {
            assert(forall|g: int| #![trigger groups[g]] 0 <= g < top ==> groups[g] == before[g]);
            assert forall|g: int, i: int| #![trigger groups[g], blocks[i]]
                0 <= g < groups.len() && groups[g].first <= i < groups[g].last implies line_start(
                base,
                groups[g].start,
            ) <= blocks[i].at && blocks[i].at + blocks[i].len <= line_start(
                base,
                groups[g].end,
            ) by {
                if g < top {
                    assert(rest[i] == blocks[i]);
                    assert(before[g].first <= i < before[g].last);
                }
            }
            if before.len() > 0 {
                assert(before.last() == before[before.len() - 1]);
            }
            assert forall|i: int, j: int| #![trigger groups[i], groups[j]]
                0 <= i < j < groups.len() implies groups[i].end <= groups[j].start
                && groups[i].last <= groups[j].first by {
                assert(groups[i] == before[i]);
                if j == top {
                    assert(i == top - 1 || before[i].end <= before[top - 1].start);
                }
            }
            assert(groups_follow(groups, spans.len(), blocks.len()));
        }
    }
}

/// The lines before the first touched line and after the last one keep what they held.
pub proof fn law_untouched_lines_stay(original: Seq<char>, base: Seq<char>, blocks: Seq<Block>)
    requires
        preserved(original, base, blocks) is Ok,
        follow_within(blocks, 0, base.len() as int),
    ensures
        ({
            let groups = touched_lines(line_spans(base), blocks)->0;
            let new = preserved(original, base, blocks)->Ok_0;
            &&& blocks.len() == 0 ==> new == original
            &&& blocks.len() > 0 ==> {
                let head = line_start(original, groups.first().start);
                let tail = original.skip(line_start(original, groups.last().end));
                &&& head + tail.len() <= new.len()
                &&& new.take(head) == original.take(head)
                &&& new.skip(new.len() - tail.len()) == tail
            }
        }),
{
    let groups = touched_lines(line_spans(base), blocks)->0;
    let new = preserved(original, base, blocks)->Ok_0;
    lemma_touched_lines(base, blocks);
    if blocks.len() > 0 {
        assert(groups[groups.len() - 1] == groups.last());
        lemma_rewritten_head(original, base, groups, blocks);
        let head = line_start(original, groups.first().start);
        let tail = original.skip(line_start(original, groups.last().end));
        let front = rewritten(original, base, groups, blocks);
        assert(new == front + tail);
        assert(new.take(head) =~= front.take(head));
        assert(new.skip(new.len() - tail.len()) =~= tail);
    } else {
        law_lines_cover_the_text(original);
        assert(line_start(original, 0) == 0);
        assert(new =~= original);
    }
}

/// Only lines that a block reaches into are touched.
pub proof fn law_only_lines_that_a_block_reaches_into_are_touched(
    base: Seq<char>,
    blocks: Seq<Block>,
    g: int,
    line: int,
)
    requires
        touched_lines(line_spans(base), blocks) is Some,
        0 <= g < touched_lines(line_spans(base), blocks)->0.len(),
        touched_lines(line_spans(base), blocks)->0[g].start <= line < touched_lines(
            line_spans(base),
            blocks,
        )->0[g].end,
        forall|i: int| #![trigger blocks[i]]
            0 <= i < blocks.len() ==> 0 <= blocks[i].at && 0 < blocks[i].len,
        forall|i: int, j: int| #![trigger blocks[i], blocks[j]]
            0 <= i < j < blocks.len() ==> blocks[i].at + blocks[i].len <= blocks[j].at,
    ensures
        exists|i: int|
            0 <= i < blocks.len() && line_spans(base)[line].0 < (#[trigger] blocks[i]).at
                + blocks[i].len && blocks[i].at < line_spans(base)[line].1,
    decreases blocks.len(),
{
    let spans = line_spans(base);
    let rest = blocks.drop_last();
    let block = blocks.last();
    let groups = touched_lines(spans, blocks)->0;
    let before = touched_lines(spans, rest)->0;
    let (start, end) = line_range(spans, block)->0;
    assert(block == blocks[blocks.len() - 1]);
    assert forall|i: int| #![trigger rest[i]] 0 <= i < rest.len() implies 0 <= rest[i].at && 0
        < rest[i].len by {
        assert(rest[i] == blocks[i]);
    }
    assert forall|i: int, j: int| #![trigger rest[i], rest[j]]
        0 <= i < j < rest.len() implies rest[i].at + rest[i].len <= rest[j].at by {
        assert(rest[i] == blocks[i] && rest[j] == blocks[j]);
    }
    lemma_line_at(spans, block.at, 0);
    lemma_line_reaching(spans, block.at + block.len, start);
    law_lines_cover_the_text(base);
    if start <= line < end {
        if line > start {
            assert(spans[line - 1].1 < block.at + block.len);
            lemma_spans_increase(base, start, line);
            lemma_spans_follow(base, line);
        } else {
            assert(spans[line].0 <= block.at < spans[line].1);
        }
        assert(blocks[blocks.len() - 1] == block);
    } else {
        lemma_touched_lines(base, rest);
        let h = if g < before.len() {
            g
        } else {
            before.len() - 1
        };
        assert(before[h].start <= line < before[h].end);
        law_only_lines_that_a_block_reaches_into_are_touched(base, rest, h, line);
        let i = choose|i: int|
            0 <= i < rest.len() && spans[line].0 < (#[trigger] rest[i]).at + rest[i].len
                && rest[i].at < spans[line].1;
        assert(blocks[i] == rest[i]);
    }
}

/// A line begins where the line before it ends.
proof fn lemma_spans_follow(content: Seq<char>, i: int)
    requires
        0 < i < line_spans(content).len(),
    ensures
        line_spans(content)[i - 1].1 == line_spans(content)[i].0,
{
    law_lines_cover_the_text(content);
}

proof fn lemma_rewritten_head(
    original: Seq<char>,
    base: Seq<char>,
    groups: Seq<Touched>,
    blocks: Seq<Block>,
)
    requires
        groups.len() > 0,
        groups_follow(groups, line_spans(original).len(), blocks.len()),
    ensures
        ({
            let head = line_start(original, groups.first().start);
            let front = rewritten(original, base, groups, blocks);
            &&& 0 <= head <= original.len()
            &&& head <= front.len()
            &&& front.take(head) == original.take(head)
        }),
    decreases groups.len(),
{
    let head = line_start(original, groups.first().start);
    let before = groups.drop_last();
    let front = rewritten(original, base, groups, blocks);
    let inner = rewritten(original, base, before, blocks);
    assert(groups[0] == groups.first());
    lemma_line_start(original, 0, groups.first().start);
    law_lines_cover_the_text(original);
    assert(line_start(original, 0) == 0);
    if before.len() > 0 {
        assert(forall|i: int| #![trigger before[i]] 0 <= i < before.len() ==> before[i] == groups[i]);
        lemma_rewritten_head(original, base, before, blocks);
        assert(before.first() == groups.first());
        assert(front.take(head) =~= inner.take(head));
    } else {
        assert(front.take(head) =~= original.take(head));
    }
}

spec fn as_spans(lines: Seq<(usize, usize)>) -> Seq<(int, int)> {
    lines.map_values(|line: (usize, usize)| (line.0 as int, line.1 as int))
}

/// Where the lines of a text stand.
fn lines_of(chars: &Vec<char>) -> (lines: Vec<(usize, usize)>)
    ensures
        as_spans(lines@) == line_spans(chars@),
{
    let mut lines: Vec<(usize, usize)> = Vec::new();
    let mut start: usize = 0;
    let mut at: usize = 0;
    let length: usize = chars.len();
    assert(chars@.take(0) =~= Seq::<char>::empty());
    assert(as_spans(lines@) =~= Seq::<(int, int)>::empty());
    while at < length
        invariant
            start <= at <= chars@.len() == length,
            start == at <==> (at == 0 || chars@[at - 1] == '\n'),
            line_spans(chars@.take(at as int)) == if start == at {
                as_spans(lines@)
            } else {
                as_spans(lines@).push((start as int, at as int))
            },
        decreases length - at,
    {
        let ghost before = chars@.take(at as int);
        let ghost after = chars@.take(at + 1);
        assert(after.drop_last() =~= before);
        assert(as_spans(lines@).push((start as int, at as int)).drop_last() =~= as_spans(lines@));
        assert(line_spans(after) == as_spans(lines@).push((start as int, at + 1)));
        if chars[at] == '\n' {
            let ghost spans = as_spans(lines@);
            lines.push((start, at + 1));
            start = at + 1;
            assert(as_spans(lines@) =~= spans.push((lines@.last().0 as int, at + 1)));
        }
        at += 1;
    }
    assert(chars@.take(at as int) =~= chars@);
    if start < at {
        let ghost spans = as_spans(lines@);
        lines.push((start, at));
        assert(as_spans(lines@) =~= spans.push((start as int, at as int)));
    }
    lines
}

/// The lines that a block touches.
fn replacement_line_range(lines: &Vec<(usize, usize)>, one: &Matched) -> (range: Option<(usize, usize)>)
    requires
        one.index + one.length <= usize::MAX,
    ensures
        match range {
            Some((start, end)) => line_range(as_spans(lines@), one.block()) == Some(
                (start as int, end as int),
            ),
            None => line_range(as_spans(lines@), one.block()) is None,
        },
{
    let ghost spans = as_spans(lines@);
    let ghost block = one.block();
    let mut start: usize = 0;
    while start < lines.len() && !(lines[start].0 <= one.index && one.index < lines[start].1)
        invariant
            start <= lines@.len(),
            spans == as_spans(lines@),
            block == one.block(),
            line_at(spans, block.at, 0) == line_at(spans, block.at, start as int),
        decreases lines@.len() - start,
    {
        assert(spans[start as int] == (lines@[start as int].0 as int, lines@[start as int].1 as int));
        start += 1;
    }
    if start >= lines.len() {
        return None;
    }
    assert(spans[start as int] == (lines@[start as int].0 as int, lines@[start as int].1 as int));
    let end_offset: usize = one.index + one.length;
    let mut end: usize = start;
    while end < lines.len() && lines[end].1 < end_offset
        invariant
            start <= end <= lines@.len(),
            spans == as_spans(lines@),
            line_reaching(spans, end_offset as int, start as int) == line_reaching(
                spans,
                end_offset as int,
                end as int,
            ),
        decreases lines@.len() - end,
    {
        assert(spans[end as int] == (lines@[end as int].0 as int, lines@[end as int].1 as int));
        end += 1;
    }
    if end >= lines.len() {
        return None;
    }
    assert(spans[end as int] == (lines@[end as int].0 as int, lines@[end as int].1 as int));
    Some((start, end + 1))
}

/// Lines `start..end`, which the matches `first..last` touch.
struct Group {
    start: usize,
    end: usize,
    first: usize,
    last: usize,
}

impl Group {
    spec fn touched(self) -> Touched {
        Touched {
            start: self.start as int,
            end: self.end as int,
            first: self.first as int,
            last: self.last as int,
        }
    }
}

spec fn all_touched(groups: Seq<Group>) -> Seq<Touched> {
    groups.map_values(|group: Group| group.touched())
}

proof fn lemma_touched_none(spans: Seq<(int, int)>, blocks: Seq<Block>, upto: int)
    requires
        0 <= upto <= blocks.len(),
        touched_lines(spans, blocks.take(upto)) is None,
    ensures
        touched_lines(spans, blocks) is None,
    decreases blocks.len() - upto,
{
    if upto < blocks.len() {
        assert(blocks.take(upto + 1).drop_last() =~= blocks.take(upto));
        lemma_touched_none(spans, blocks, upto + 1);
    } else {
        assert(blocks.take(upto) =~= blocks);
    }
}

/// The touched lines, in groups.
fn groups_of(lines: &Vec<(usize, usize)>, matched: &Vec<Matched>) -> (groups: Option<Vec<Group>>)
    requires
        forall|i: int| #![trigger matched@[i]]
            0 <= i < matched@.len() ==> matched@[i].index + matched@[i].length <= usize::MAX,
    ensures
        match groups {
            Some(groups) => touched_lines(as_spans(lines@), blocks_in(matched@)) == Some(
                all_touched(groups@),
            ),
            None => touched_lines(as_spans(lines@), blocks_in(matched@)) is None,
        },
{
    let ghost spans = as_spans(lines@);
    let ghost blocks = blocks_in(matched@);
    let mut groups: Vec<Group> = Vec::new();
    let mut next: usize = 0;
    assert(blocks.take(0) =~= Seq::<Block>::empty());
    assert(all_touched(groups@) =~= Seq::<Touched>::empty());
    while next < matched.len()
        invariant
            next <= matched@.len(),
            spans == as_spans(lines@),
            blocks == blocks_in(matched@),
            forall|i: int| #![trigger matched@[i]]
                0 <= i < matched@.len() ==> matched@[i].index + matched@[i].length <= usize::MAX,
            touched_lines(spans, blocks.take(next as int)) == Some(all_touched(groups@)),
        decreases matched@.len() - next,
    {
        let ghost now = blocks.take(next + 1);
        let ghost before = all_touched(groups@);
        proof {
            assert(now.drop_last() =~= blocks.take(next as int));
            assert(now.last() == matched@[next as int].block());
        }
        match replacement_line_range(lines, &matched[next]) {
            None => {
                proof {
                    lemma_touched_none(spans, blocks, next + 1);
                }
                return None;
            },
            Some((start, end)) => {
                let count: usize = groups.len();
                if count > 0 && start < groups[count - 1].end {
                    proof {
                        assert(before.last() == groups@[count - 1].touched());
                    }
                    let top = groups.pop().unwrap();
                    let widest: usize = if top.end >= end {
                        top.end
                    } else {
                        end
                    };
                    groups.push(
                        Group { start: top.start, end: widest, first: top.first, last: next + 1 },
                    );
                    assert(all_touched(groups@) =~= before.drop_last().push(groups@.last().touched()));
                } else {
                    groups.push(Group { start, end, first: next, last: next + 1 });
                    proof {
                        assert(count > 0 ==> before.last() == groups@[count - 1].touched());
                    }
                    assert(all_touched(groups@) =~= before.push(groups@.last().touched()));
                }
            },
        }
        next += 1;
    }
    assert(blocks.take(next as int) =~= blocks);
    Some(groups)
}

fn start_of(lines: &Vec<(usize, usize)>, chars: &Vec<char>, line: usize) -> (start: usize)
    requires
        as_spans(lines@) == line_spans(chars@),
    ensures
        start == line_start(chars@, line as int),
{
    if line < lines.len() {
        assert(as_spans(lines@)[line as int].0 == lines@[line as int].0);
        lines[line].0
    } else {
        chars.len()
    }
}

/// Rewrites only the lines that the blocks touch; every other line keeps its characters.
fn preserve_unchanged_lines(
    original: &Vec<char>,
    base: &Vec<char>,
    matched: &Vec<Matched>,
) -> (result: Result<String, String>)
    requires
        forall|i: int| #![trigger matched@[i]]
            0 <= i < matched@.len() ==> matched@[i].index + matched@[i].length <= usize::MAX,
        forall|i: int, j: int| #![trigger matched@[i], matched@[j]]
            0 <= i < j < matched@.len() ==> matched@[i].index + matched@[i].length
                <= matched@[j].index,
    ensures
        match result {
            Ok(text) => preserved(original@, base@, blocks_in(matched@)) == Ok::<
                Seq<char>,
                Seq<char>,
            >(text@),
            Err(error) => preserved(original@, base@, blocks_in(matched@)) == Err::<
                Seq<char>,
                Seq<char>,
            >(error@),
        },
{
    let ghost blocks = blocks_in(matched@);
    let original_lines = lines_of(original);
    let base_lines = lines_of(base);
    assert(as_spans(original_lines@).len() == original_lines@.len());
    assert(as_spans(base_lines@).len() == base_lines@.len());
    if original_lines.len() != base_lines.len() {
        return Err(
            "Cannot preserve unchanged lines because the base content has a different line count.".to_owned(),
        );
    }
    let groups = match groups_of(&base_lines, matched) {
        Some(groups) => groups,
        None => {
            return Err("Replacement range is outside the base content.".to_owned());
        },
    };
    let ghost touched = all_touched(groups@);
    proof {
        assert forall|i: int| #![trigger blocks[i]] 0 <= i < blocks.len() implies 0 <= blocks[i].at
            && 0 <= blocks[i].len by {
            assert(blocks[i] == matched@[i].block());
        }
        assert forall|i: int, j: int| #![trigger blocks[i], blocks[j]]
            0 <= i < j < blocks.len() implies blocks[i].at + blocks[i].len <= blocks[j].at by {
            assert(blocks[i] == matched@[i].block());
            assert(blocks[j] == matched@[j].block());
        }
        lemma_touched_lines(base@, blocks);
    }
    let mut result = String::new();
    let mut next: usize = 0;
    let mut i: usize = 0;
    assert(touched.take(0) =~= Seq::<Touched>::empty());
    while i < groups.len()
        invariant
            i <= groups@.len(),
            touched == all_touched(groups@),
            blocks == blocks_in(matched@),
            as_spans(original_lines@) == line_spans(original@),
            as_spans(base_lines@) == line_spans(base@),
            line_spans(original@).len() == line_spans(base@).len(),
            groups_follow(touched, line_spans(base@).len(), blocks.len()),
            forall|k: int| #![trigger blocks[k]]
                0 <= k < blocks.len() ==> 0 <= blocks[k].at && 0 <= blocks[k].len,
            forall|j: int, k: int| #![trigger blocks[j], blocks[k]]
                0 <= j < k < blocks.len() ==> blocks[j].at + blocks[j].len <= blocks[k].at,
            forall|g: int, k: int| #![trigger touched[g], blocks[k]]
                0 <= g < touched.len() && touched[g].first <= k < touched[g].last ==> line_start(
                    base@,
                    touched[g].start,
                ) <= blocks[k].at && blocks[k].at + blocks[k].len <= line_start(
                    base@,
                    touched[g].end,
                ),
            next == next_line(touched.take(i as int)),
            result@ == rewritten(original@, base@, touched.take(i as int), blocks),
        decreases groups@.len() - i,
    {
        let group = &groups[i];
        let ghost done = touched.take(i as int);
        let ghost now = touched.take(i + 1);
        proof {
            assert(now.drop_last() =~= done);
            assert(touched[i as int] == group.touched());
            assert(now.last() == touched[i as int]);
            if i > 0 {
                assert(done.last() == touched[i - 1]);
            }
            lemma_line_start(original@, next as int, group.start as int);
            lemma_line_start(base@, group.start as int, group.end as int);
            let part = blocks.subrange(group.first as int, group.last as int);
            assert forall|k: int| #![trigger part[k]] 0 <= k < part.len() implies line_start(
                base@,
                group.start as int,
            ) <= part[k].at && 0 <= part[k].len && part[k].at + part[k].len <= line_start(
                base@,
                group.end as int,
            ) by {
                assert(part[k] == blocks[group.first + k]);
            }
            assert forall|j: int, k: int| #![trigger part[j], part[k]]
                0 <= j < k < part.len() implies part[j].at + part[j].len <= part[k].at by {
                assert(part[j] == blocks[group.first + j]);
                assert(part[k] == blocks[group.first + k]);
            }
        }
        let kept_from: usize = start_of(&original_lines, original, next);
        let kept_to: usize = start_of(&original_lines, original, group.start);
        append_chars(&mut result, original, kept_from, kept_to);
        let from: usize = start_of(&base_lines, base, group.start);
        let to: usize = start_of(&base_lines, base, group.end);
        replace_all(&mut result, base, from, to, matched, group.first, group.last);
        next = group.end;
        i += 1;
    }
    assert(touched.take(i as int) =~= touched);
    let rest: usize = start_of(&original_lines, original, next);
    proof {
        if touched.len() > 0 {
            assert(touched.last() == touched[touched.len() - 1]);
        }
        lemma_line_start(original@, next as int, line_spans(original@).len() as int);
    }
    append_chars(&mut result, original, rest, original.len());
    assert(original@.subrange(rest as int, original@.len() as int) =~= original@.skip(rest as int));
    Ok(result)
}

// ---- Applying edits ----

/// What stands in the base with its blocks replaced: only touched lines where some edit
/// matched in fuzzy form, otherwise the whole text.
pub open spec fn replaced(
    normalized: Seq<char>,
    base: Seq<char>,
    fuzzy: bool,
    sorted: Seq<Block>,
) -> Result<Seq<char>, Seq<char>> {
    if fuzzy {
        preserved(normalized, base, sorted)
    } else {
        Ok(spliced(base, sorted, 0))
    }
}

/// What applying the edits to `normalized` gives, where `once` is its fuzzy form and `twice`
/// the fuzzy form of that.
pub open spec fn edit_outcome(
    normalized: Seq<char>,
    once: Seq<char>,
    twice: Seq<char>,
    wanted: Seq<Wanted>,
    path: Seq<char>,
) -> Result<Seq<char>, Seq<char>> {
    let total = wanted.len();
    let fuzzy = needs_fuzzy(normalized, once, wanted);
    let base = if fuzzy {
        once
    } else {
        normalized
    };
    let fuzzy_base = if fuzzy {
        twice
    } else {
        once
    };
    match first_empty(wanted, 0) {
        Some(index) => Err(empty_error(index, total, path)),
        None => match blocks_of(base, fuzzy_base, wanted, total as int, path) {
            Err(error) => Err(error),
            Ok(blocks) => {
                let sorted = in_order(blocks);
                match first_overlap(sorted, 0) {
                    Some(i) => Err(overlap_error(sorted[i].edit, sorted[i + 1].edit, path)),
                    None => match replaced(normalized, base, fuzzy, sorted) {
                        Err(error) => Err(error),
                        Ok(new) => if new == normalized {
                            Err(unchanged_error(total, path))
                        } else {
                            Ok(new)
                        },
                    },
                }
            },
        },
    }
}

/// What a function that returns the base and the new text, or an error, has to return.
pub open spec fn is_outcome(
    result: Result<(String, String), String>,
    normalized: Seq<char>,
    outcome: Result<Seq<char>, Seq<char>>,
) -> bool {
    match result {
        Ok((base, new)) => base@ == normalized && outcome == Ok::<Seq<char>, Seq<char>>(new@),
        Err(error) => outcome == Err::<Seq<char>, Seq<char>>(error@),
    }
}

/// Puts a block among those before it that begin no later.
fn insert_in_order(sorted: &mut Vec<Matched>, one: Matched)
    ensures
        blocks_in(final(sorted)@) == inserted(blocks_in(old(sorted)@), one.block()),
        forall|i: int| #![trigger final(sorted)@[i]]
            0 <= i < final(sorted)@.len() ==> final(sorted)@[i] == one || exists|k: int|
                0 <= k < old(sorted)@.len() && final(sorted)@[i] == #[trigger] old(sorted)@[k],
{
    let ghost before = sorted@;
    let ghost blocks = blocks_in(before);
    let ghost block = one.block();
    let ghost given = one;
    let mut place: usize = sorted.len();
    assert(blocks.take(place as int) =~= blocks);
    assert(inserted(blocks, block) =~= inserted(blocks.take(place as int), block) + blocks.skip(
        place as int,
    ));
    while place > 0 && sorted[place - 1].index > one.index
        invariant
            place <= sorted@.len(),
            sorted@ == before,
            blocks == blocks_in(before),
            block == one.block(),
            inserted(blocks, block) == inserted(blocks.take(place as int), block) + blocks.skip(
                place as int,
            ),
        decreases place,
    {
        proof {
            let head = blocks.take(place as int);
            assert(head.last() == before[place - 1].block());
            assert(head.drop_last() =~= blocks.take(place - 1));
            assert(inserted(head, block) + blocks.skip(place as int) =~= inserted(
                blocks.take(place - 1),
                block,
            ) + blocks.skip(place - 1));
        }
        place -= 1;
    }
    proof {
        let head = blocks.take(place as int);
        if place > 0 {
            assert(head.last() == before[place - 1].block());
        }
        assert(inserted(head, block) == head.push(block));
    }
    sorted.insert(place, one);
    proof {
        assert(sorted@ == before.insert(place as int, given));
        assert(blocks_in(sorted@) =~= blocks.take(place as int).push(block) + blocks.skip(
            place as int,
        ));
        assert forall|i: int| #![trigger sorted@[i]] 0 <= i < sorted@.len() implies sorted@[i]
            == given || exists|k: int| 0 <= k < before.len() && sorted@[i] == #[trigger] before[k] by {
            if i < place {
                assert(sorted@[i] == before[i]);
            } else if i > place {
                assert(sorted@[i] == before[i - 1]);
            }
        }
    }
}

/// Finds the old text of every edit, and gives the blocks by where they begin.
fn locate_all(
    base: &Vec<char>,
    fuzzy_base: &Vec<char>,
    edits: &Vec<Prepared>,
    path: &str,
) -> (result: Result<Vec<Matched>, String>)
    ensures
        match result {
            Ok(sorted) => {
                let blocks = blocks_of(
                    base@,
                    fuzzy_base@,
                    all_wanted(edits@),
                    edits@.len() as int,
                    path@,
                );
                &&& blocks is Ok
                &&& blocks_in(sorted@) == in_order(blocks->Ok_0)
                &&& forall|i: int| #![trigger sorted@[i]]
                    0 <= i < sorted@.len() ==> sorted@[i].index + sorted@[i].length <= usize::MAX
                &&& (forall|i: int| #![trigger edits@[i]]
                    0 <= i < edits@.len() ==> strings::holds(base@, edits@[i].old_text@)) ==> (
                forall|i: int| #![trigger sorted@[i]]
                    0 <= i < sorted@.len() ==> sorted@[i].index + sorted@[i].length <= base@.len())
            },
            Err(error) => blocks_of(
                base@,
                fuzzy_base@,
                all_wanted(edits@),
                edits@.len() as int,
                path@,
            ) == Err::<Seq<Block>, Seq<char>>(error@),
        },
{
    let ghost wanted = all_wanted(edits@);
    let total: usize = edits.len();
    let mut sorted: Vec<Matched> = Vec::new();
    let mut index: usize = 0;
    let base_length: usize = base.len();
    let fuzzy_length: usize = fuzzy_base.len();
    assert(blocks_in(sorted@) =~= Seq::<Block>::empty());
    while index < total
        invariant
            index <= total == edits@.len(),
            wanted == all_wanted(edits@),
            base_length == base@.len(),
            fuzzy_length == fuzzy_base@.len(),
            blocks_of(base@, fuzzy_base@, wanted, index as int, path@) is Ok,
            blocks_in(sorted@) == in_order(
                blocks_of(base@, fuzzy_base@, wanted, index as int, path@)->Ok_0,
            ),
            forall|i: int| #![trigger sorted@[i]]
                0 <= i < sorted@.len() ==> sorted@[i].index + sorted@[i].length <= usize::MAX,
            (forall|i: int| #![trigger edits@[i]]
                0 <= i < edits@.len() ==> strings::holds(base@, edits@[i].old_text@)) ==> (forall|
                i: int,
            | #![trigger sorted@[i]]
                0 <= i < sorted@.len() ==> sorted@[i].index + sorted@[i].length <= base@.len()),
        decreases total - index,
    {
        let edit = &edits[index];
        let ghost one = wanted[index as int];
        assert(one == edit.wanted());
        let ghost before = blocks_of(base@, fuzzy_base@, wanted, index as int, path@)->Ok_0;
        let old_text = chars_of(edit.old_text.as_str());
        let needle = chars_of(edit.fuzzy.as_str());
        let found: Option<(usize, usize)> = match position(base, &old_text) {
            Some(at) => Some((at, old_text.len())),
            None => match position(fuzzy_base, &needle) {
                Some(at) => Some((at, needle.len())),
                None => None,
            },
        };
        match found {
            None => {
                proof {
                    lemma_blocks_error(base@, fuzzy_base@, wanted, index + 1, total as int, path@);
                }
                return Err(missing_message(index, total, path));
            },
            Some((at, length)) => {
                let occurrences: u128 = count(fuzzy_base, &needle);
                if occurrences > 1 {
                    proof {
                        lemma_blocks_error(
                            base@,
                            fuzzy_base@,
                            wanted,
                            index + 1,
                            total as int,
                            path@,
                        );
                    }
                    return Err(repeated_message(occurrences, index, total, path));
                }
                let ghost now = blocks_of(base@, fuzzy_base@, wanted, index + 1, path@)->Ok_0;
                let matched = Matched {
                    edit_index: index,
                    index: at,
                    length,
                    new_text: edit.new_text.clone(),
                };
                proof {
                    assert(now == before.push(matched.block()));
                    assert(now.drop_last() =~= before);
                    assert((forall|i: int| #![trigger edits@[i]]
                        0 <= i < edits@.len() ==> strings::holds(base@, edits@[i].old_text@))
                        ==> strings::holds(base@, edits@[index as int].old_text@));
                }
                insert_in_order(&mut sorted, matched);
            },
        }
        index += 1;
    }
    Ok(sorted)
}

/// Applies edits that were brought into the form in which they are matched. `once` is the
/// fuzzy form of `normalized` and `twice` the fuzzy form of that.
pub fn apply_prepared(
    normalized: &str,
    once: &str,
    twice: &str,
    edits: &Vec<Prepared>,
    path: &str,
) -> (result: Result<(String, String), String>)
    ensures
        is_outcome(
            result,
            normalized@,
            edit_outcome(normalized@, once@, twice@, all_wanted(edits@), path@),
        ),
{
    let ghost wanted = all_wanted(edits@);
    let total: usize = edits.len();
    let mut index: usize = 0;
    while index < total
        invariant
            index <= total == edits@.len(),
            wanted == all_wanted(edits@),
            first_empty(wanted, 0) == first_empty(wanted, index as int),
        decreases total - index,
    {
        assert(wanted[index as int] == edits@[index as int].wanted());
        let old_text = chars_of(edits[index].old_text.as_str());
        if old_text.len() == 0 {
            return Err(empty_message(index, total, path));
        }
        index += 1;
    }
    let plain = chars_of(normalized);
    let folded = chars_of(once);
    let mut fuzzy = false;
    let mut next: usize = 0;
    while next < total
        invariant
            next <= total == edits@.len(),
            wanted == all_wanted(edits@),
            plain@ == normalized@,
            folded@ == once@,
            fuzzy <==> exists|i: int|
                0 <= i < next && only_fuzzy(normalized@, once@, #[trigger] wanted[i]),
        decreases total - next,
    {
        assert(wanted[next as int] == edits@[next as int].wanted());
        let old_text = chars_of(edits[next].old_text.as_str());
        let needle = chars_of(edits[next].fuzzy.as_str());
        if position(&plain, &old_text).is_none() && position(&folded, &needle).is_some() {
            fuzzy = true;
        }
        next += 1;
    }
    assert(fuzzy == needs_fuzzy(normalized@, once@, wanted));
    let again = chars_of(twice);
    let base = if fuzzy {
        &folded
    } else {
        &plain
    };
    let fuzzy_base = if fuzzy {
        &again
    } else {
        &folded
    };
    let sorted = match locate_all(base, fuzzy_base, edits, path) {
        Ok(sorted) => sorted,
        Err(error) => {
            return Err(error);
        },
    };
    let ghost blocks = blocks_in(sorted@);
    let mut pair: usize = 0;
    while pair < sorted.len() && sorted.len() - pair > 1
        invariant
            pair <= sorted@.len(),
            wanted == all_wanted(edits@),
            blocks == blocks_in(sorted@),
            blocks.len() == sorted@.len(),
            forall|i: int| #![trigger sorted@[i]]
                0 <= i < sorted@.len() ==> sorted@[i].index + sorted@[i].length <= usize::MAX,
            first_overlap(blocks, 0) == first_overlap(blocks, pair as int),
            edit_outcome(normalized@, once@, twice@, wanted, path@) == (match first_overlap(
                blocks,
                0,
            ) {
                Some(i) => Err::<Seq<char>, Seq<char>>(
                    overlap_error(blocks[i].edit, blocks[i + 1].edit, path@),
                ),
                None => match replaced(normalized@, base@, fuzzy, blocks) {
                    Err(error) => Err(error),
                    Ok(new) => if new == normalized@ {
                        Err(unchanged_error(wanted.len(), path@))
                    } else {
                        Ok(new)
                    },
                },
            }),
        decreases sorted@.len() - pair,
    {
        assert(blocks[pair as int] == sorted@[pair as int].block());
        assert(blocks[pair + 1] == sorted@[pair + 1].block());
        if sorted[pair].index + sorted[pair].length > sorted[pair + 1].index {
            return Err(overlap_message(sorted[pair].edit_index, sorted[pair + 1].edit_index, path));
        }
        pair += 1;
    }
    proof {
        assert forall|i: int| #![trigger blocks[i]] 0 <= i < blocks.len() implies 0
            <= blocks[i].len && 0 <= blocks[i].at by {
            assert(blocks[i] == sorted@[i].block());
        }
        lemma_no_overlap(blocks, 0);
        assert forall|i: int, j: int| #![trigger sorted@[i], sorted@[j]]
            0 <= i < j < sorted@.len() implies sorted@[i].index + sorted@[i].length
            <= sorted@[j].index by {
            assert(blocks[i] == sorted@[i].block());
            assert(blocks[j] == sorted@[j].block());
        }
    }
    let new = if fuzzy {
        match preserve_unchanged_lines(&plain, base, &sorted) {
            Ok(new) => new,
            Err(error) => {
                return Err(error);
            },
        }
    } else {
        let mut new = String::new();
        proof {
            assert forall|i: int| #![trigger edits@[i]] 0 <= i < edits@.len() implies strings::holds(
                base@,
                edits@[i].old_text@,
            ) by {
                lemma_all_found(base@, folded@, wanted, total as int, path@, i);
                assert(wanted[i] == edits@[i].wanted());
            }
            let whole = blocks.subrange(0, blocks.len() as int);
            assert(whole =~= blocks);
            assert forall|i: int| #![trigger blocks[i]] 0 <= i < blocks.len() implies blocks[i].at
                + blocks[i].len <= base@.len() by {
                assert(blocks[i] == sorted@[i].block());
            }
            assert(base@.subrange(0, base@.len() as int) =~= base@);
        }
        replace_all(&mut new, base, 0, base.len(), &sorted, 0, sorted.len());
        new
    };
    if same(new.as_str(), normalized) {
        return Err(unchanged_message(total, path));
    }
    Ok((normalized.to_owned(), new))
}

/// Where no edit needs its fuzzy form and all of them were found, each stands as it is.
proof fn lemma_all_found(
    base: Seq<char>,
    fuzzy_base: Seq<char>,
    wanted: Seq<Wanted>,
    upto: int,
    path: Seq<char>,
    i: int,
)
    requires
        0 <= i < upto <= wanted.len(),
        !needs_fuzzy(base, fuzzy_base, wanted),
        blocks_of(base, fuzzy_base, wanted, upto, path) is Ok,
    ensures
        strings::holds(base, wanted[i].old),
    decreases upto,
{
    if i < upto - 1 {
        lemma_all_found(base, fuzzy_base, wanted, upto - 1, path, i);
    } else {
        assert(!only_fuzzy(base, fuzzy_base, wanted[i]));
    }
}

/// What edits ask for, in the form in which edits are matched.
pub open spec fn all_prepared(edits: Seq<Edit>) -> Seq<Wanted> {
    edits.map_values(|edit: Edit| prepared(edit))
}

/// What applying edits to a text gives.
pub open spec fn outcome_of(normalized: Seq<char>, edits: Seq<Edit>, path: Seq<char>) -> Result<
    Seq<char>,
    Seq<char>,
> {
    edit_outcome(
        normalized,
        text::fuzzy_form(normalized),
        text::fuzzy_form(text::fuzzy_form(normalized)),
        all_prepared(edits),
        path,
    )
}

/// Applies every edit against the same original, whose line endings are line feeds. Returns
/// `(base, new)`. The wording of the errors is fixed, because models learn to react to it. The
/// order in which the edits are listed does not matter: where they succeed, every other order of
/// them succeeds with the same text.
pub fn apply_edits(normalized: &str, edits: &[Edit], path: &str) -> (result: Result<
    (String, String),
    String,
>)
    ensures
        is_outcome(result, normalized@, outcome_of(normalized@, edits@, path@)),
        result matches Ok((base, new)) ==> base@ == normalized@ && new@ != normalized@,
        result is Ok ==> forall|other: Seq<Edit>|
            other.to_multiset() == edits@.to_multiset() ==> is_outcome(
                result,
                normalized@,
                #[trigger] outcome_of(normalized@, other, path@),
            ),
{
    let mut ready: Vec<Prepared> = Vec::new();
    let mut index: usize = 0;
    let total: usize = edits.len();
    while index < total
        invariant
            index <= total == edits@.len(),
            ready@.len() == index,
            forall|i: int| #![trigger ready@[i]]
                0 <= i < index ==> ready@[i].wanted() == prepared(edits@[i]),
        decreases total - index,
    {
        let old_text = normalize_to_lf(edits[index].old_text.as_str());
        let new_text = normalize_to_lf(edits[index].new_text.as_str());
        let fuzzy = normalize_for_fuzzy_match(old_text.as_str());
        ready.push(Prepared { old_text, new_text, fuzzy });
        index += 1;
    }
    assert(all_wanted(ready@) =~= all_prepared(edits@));
    let once = normalize_for_fuzzy_match(normalized);
    let twice = normalize_for_fuzzy_match(once.as_str());
    let result = apply_prepared(normalized, once.as_str(), twice.as_str(), &ready, path);
    proof {
        let wanted = all_prepared(edits@);
        law_success_changes_the_text(normalized@, once@, twice@, wanted, path@);
        if once@.len() > 0 {
            text::lemma_folded_rest(text::nfkc(normalized@));
        }
        assert forall|other: Seq<Edit>|
            other.to_multiset() == edits@.to_multiset() && result is Ok implies is_outcome(
            result,
            normalized@,
            #[trigger] outcome_of(normalized@, other, path@),
        ) by {
            lemma_prepared_again(edits@, other);
            law_order_does_not_matter(
                normalized@,
                once@,
                twice@,
                wanted,
                all_prepared(other),
                path@,
            );
        }
    }
    result
}

/// The same edits ask for the same in any order.
proof fn lemma_prepared_again(edits: Seq<Edit>, other: Seq<Edit>)
    requires
        edits.to_multiset() == other.to_multiset(),
    ensures
        all_prepared(edits).to_multiset() == all_prepared(other).to_multiset(),
    decreases edits.len(),
{
    broadcast use vstd::seq_lib::group_to_multiset_ensures;

    assert(edits.len() == other.len()) by {
        assert(edits.len() == edits.to_multiset().len());
        assert(other.len() == other.to_multiset().len());
    }
    if edits.len() == 0 {
        assert(all_prepared(edits) =~= all_prepared(other));
    } else {
        let last = edits.last();
        let rest = edits.drop_last();
        assert(edits =~= rest.push(last));
        assert(edits.contains(edits[edits.len() - 1]));
        assert(other.to_multiset().count(last) > 0);
        assert(other.contains(last));
        let k = choose|k: int| 0 <= k < other.len() && other[k] == last;
        let less = other.remove(k);
        assert(less.to_multiset() =~= other.to_multiset().remove(last));
        assert(rest.to_multiset() =~= edits.to_multiset().remove(last));
        lemma_prepared_again(rest, less);
        let all = all_prepared(other);
        assert(all_prepared(edits) =~= all_prepared(rest).push(prepared(last)));
        assert(all.remove(k) =~= all_prepared(less));
        assert(all[k] == prepared(last));
        assert(all.contains(all[k]));
        assert(all.to_multiset().count(prepared(last)) > 0);
        assert(all_prepared(edits).to_multiset() =~= all.to_multiset());
    }
}

// ---- Laws of edits ----

/// Edits that succeed change the text.
pub proof fn law_success_changes_the_text(
    normalized: Seq<char>,
    once: Seq<char>,
    twice: Seq<char>,
    wanted: Seq<Wanted>,
    path: Seq<char>,
)
    ensures
        edit_outcome(normalized, once, twice, wanted, path) matches Ok(new) ==> new != normalized,
{
}

/// One edit whose old text stands in the text, and nowhere else in fuzzy form, puts its new text
/// in that place and leaves everything else.
pub proof fn law_one_exact_edit_replaces_one_place(
    normalized: Seq<char>,
    once: Seq<char>,
    twice: Seq<char>,
    wanted: Wanted,
    path: Seq<char>,
)
    requires
        wanted.old.len() > 0,
        strings::holds(normalized, wanted.old),
        strings::occurrences_from(once, wanted.fuzzy, 0) <= 1,
        wanted.old != wanted.new,
    ensures
        ({
            let at = strings::find(normalized, wanted.old)->0;
            edit_outcome(normalized, once, twice, seq![wanted], path) == Ok::<Seq<char>, Seq<char>>(
                normalized.take(at) + wanted.new + normalized.skip(at + wanted.old.len()),
            )
        }),
{
    let all = seq![wanted];
    let at = strings::find(normalized, wanted.old)->0;
    let end = at + wanted.old.len();
    strings::lemma_find_from(normalized, wanted.old, 0);
    assert(all[0] == wanted);
    assert(!needs_fuzzy(normalized, once, all));
    assert(first_empty(all, 1) is None);
    assert(first_empty(all, 0) is None);
    let block = Block { edit: 0, at, len: wanted.old.len() as int, new: wanted.new };
    assert(blocks_of(normalized, once, all, 0, path) == Ok::<Seq<Block>, Seq<char>>(Seq::empty()));
    let blocks = Seq::<Block>::empty().push(block);
    assert(blocks_of(normalized, once, all, 1, path) == Ok::<Seq<Block>, Seq<char>>(blocks));
    assert(blocks.drop_last() =~= Seq::<Block>::empty());
    assert(in_order(Seq::<Block>::empty()) =~= Seq::<Block>::empty());
    let sorted = in_order(blocks);
    assert(sorted == Seq::<Block>::empty().push(block));
    assert(first_overlap(sorted, 0) is None);
    assert(sorted.drop_last() =~= Seq::<Block>::empty());
    let new = normalized.take(at) + wanted.new + normalized.skip(end);
    assert(sorted.last() == block);
    assert(spliced(normalized.take(at), Seq::<Block>::empty(), 0) == normalized.take(at));
    assert(spliced(normalized, sorted, 0) =~= new);
    if new == normalized {
        assert(normalized.subrange(at, end) == wanted.old);
        assert(wanted.new.len() == wanted.old.len());
        assert(new.subrange(at, end) =~= wanted.new);
    }
}

/// One edit whose old text stands in a text in one place, and in fuzzy form nowhere else, gives the
/// text before that place, then the new text, then the text after it. Of the new text nothing
/// changes but its line endings: where it holds no carriage return, it stands there as it was
/// given, character by character.
pub proof fn law_a_new_text_takes_the_place_of_the_old(
    before: Seq<char>,
    after: Seq<char>,
    edit: Edit,
    path: Seq<char>,
)
    requires
        edit.old_text@.len() > 0,
        ({
            let old = text::to_lf(edit.old_text@);
            let normalized = before + old + after;
            &&& old != text::to_lf(edit.new_text@)
            &&& forall|k: int| #[trigger]
                strings::stands_at(normalized, old, k) ==> k == before.len()
            &&& strings::occurrences_from(
                text::fuzzy_form(normalized),
                text::fuzzy_form(old),
                0,
            ) <= 1
        }),
    ensures
        outcome_of(before + text::to_lf(edit.old_text@) + after, seq![edit], path) == Ok::<
            Seq<char>,
            Seq<char>,
        >(before + text::to_lf(edit.new_text@) + after),
        !edit.old_text@.contains('\r') && !edit.new_text@.contains('\r') ==> outcome_of(
            before + edit.old_text@ + after,
            seq![edit],
            path,
        ) == Ok::<Seq<char>, Seq<char>>(before + edit.new_text@ + after),
{
    let old = text::to_lf(edit.old_text@);
    let new = text::to_lf(edit.new_text@);
    let normalized = before + old + after;
    let wanted = prepared(edit);
    text::law_each_line_ending_becomes_a_line_feed(edit.old_text@, Seq::empty());
    text::law_each_line_ending_becomes_a_line_feed(edit.new_text@, Seq::empty());
    text::lemma_to_lf_something(edit.old_text@);
    assert(normalized.subrange(before.len() as int, (before.len() + old.len()) as int) =~= old);
    assert(strings::stands_at(normalized, old, before.len() as int));
    strings::lemma_find_from(normalized, old, 0);
    assert(all_prepared(seq![edit]) =~= seq![wanted]);
    law_one_exact_edit_replaces_one_place(
        normalized,
        text::fuzzy_form(normalized),
        text::fuzzy_form(text::fuzzy_form(normalized)),
        wanted,
        path,
    );
    assert(normalized.take(before.len() as int) =~= before);
    assert(normalized.skip((before.len() + old.len()) as int) =~= after);
}

/// Edits succeed only where the old text of each is something, stands in the text as it is or in
/// fuzzy form, and stands there in fuzzy form no more than once.
pub proof fn law_success_means_every_old_text_was_found_once(
    normalized: Seq<char>,
    edits: Seq<Edit>,
    path: Seq<char>,
    i: int,
)
    requires
        outcome_of(normalized, edits, path) is Ok,
        0 <= i < edits.len(),
    ensures
        edits[i].old_text@.len() > 0,
        ({
            let old = text::to_lf(edits[i].old_text@);
            let fuzzy = text::fuzzy_form(normalized);
            let again = text::fuzzy_form(fuzzy);
            &&& strings::holds(normalized, old) || strings::holds(fuzzy, old) || strings::holds(
                fuzzy,
                text::fuzzy_form(old),
            ) || strings::holds(again, text::fuzzy_form(old))
            &&& strings::occurrences_from(fuzzy, text::fuzzy_form(old), 0) <= 1
                || strings::occurrences_from(again, text::fuzzy_form(old), 0) <= 1
        }),
{
    let once = text::fuzzy_form(normalized);
    let twice = text::fuzzy_form(once);
    let wanted = all_prepared(edits);
    let fuzzy = needs_fuzzy(normalized, once, wanted);
    let base = if fuzzy {
        once
    } else {
        normalized
    };
    let fuzzy_base = if fuzzy {
        twice
    } else {
        once
    };
    lemma_first_empty(wanted, 0);
    lemma_blocks(base, fuzzy_base, wanted, wanted.len() as int, path);
    assert(wanted[i] == prepared(edits[i]));
    assert(is_found(base, fuzzy_base, wanted[i]));
    if edits[i].old_text@.len() == 0 {
        assert(wanted[i].old.len() == 0);
    }
}

/// One edit that cannot be made is answered why: its old text is nothing, or stands nowhere in the
/// text as it is or in fuzzy form, or stands there more than once in fuzzy form.
pub proof fn law_an_edit_that_fails_is_answered_why(
    normalized: Seq<char>,
    edit: Edit,
    path: Seq<char>,
)
    ensures
        ({
            let old = text::to_lf(edit.old_text@);
            let fuzzy = text::fuzzy_form(normalized);
            let found = strings::occurrences_from(fuzzy, text::fuzzy_form(old), 0);
            let outcome = outcome_of(normalized, seq![edit], path);
            &&& edit.old_text@.len() == 0 ==> outcome == Err::<Seq<char>, Seq<char>>(
                "oldText must not be empty in "@ + path + "."@,
            )
            &&& edit.old_text@.len() > 0 && !strings::holds(normalized, old) && !strings::holds(
                fuzzy,
                text::fuzzy_form(old),
            ) ==> outcome == Err::<Seq<char>, Seq<char>>(
                "Could not find the exact text in "@ + path
                    + ". The old text must match exactly including all whitespace and newlines."@,
            )
            &&& edit.old_text@.len() > 0 && strings::holds(normalized, old) && found > 1 ==> outcome
                == Err::<Seq<char>, Seq<char>>(
                "Found "@ + strings::decimal(found) + " occurrences of the text in "@ + path
                    + ". The text must be unique. Please provide more context to make it unique."@,
            )
        }),
{
    let once = text::fuzzy_form(normalized);
    let wanted = all_prepared(seq![edit]);
    text::lemma_to_lf_something(edit.old_text@);
    assert(wanted.len() == 1 && wanted[0] == prepared(edit));
    assert(first_empty(wanted, 1) is None);
    if strings::holds(normalized, wanted[0].old) || !strings::holds(once, wanted[0].fuzzy) {
        assert(!needs_fuzzy(normalized, once, wanted));
        assert(blocks_of(normalized, once, wanted, 0, path) == Ok::<Seq<Block>, Seq<char>>(
            Seq::empty(),
        ));
        reveal_with_fuel(blocks_of, 2);
    }
}

/// Of several edits, one that cannot be made is named by its place in the list.
pub proof fn law_the_first_edit_that_fails_is_named(
    normalized: Seq<char>,
    edits: Seq<Edit>,
    path: Seq<char>,
    i: int,
)
    requires
        edits.len() > 1,
        0 <= i < edits.len(),
        forall|k: int| #![trigger edits[k]]
            0 <= k < i ==> strings::holds(normalized, text::to_lf(edits[k].old_text@))
                && strings::occurrences_from(
                text::fuzzy_form(normalized),
                text::fuzzy_form(text::to_lf(edits[k].old_text@)),
                0,
            ) <= 1,
        forall|k: int| #![trigger edits[k]]
            0 <= k < edits.len() ==> edits[k].old_text@.len() > 0 && (strings::holds(
                normalized,
                text::to_lf(edits[k].old_text@),
            ) || !strings::holds(
                text::fuzzy_form(normalized),
                text::fuzzy_form(text::to_lf(edits[k].old_text@)),
            )),
        !strings::holds(normalized, text::to_lf(edits[i].old_text@)),
    ensures
        outcome_of(normalized, edits, path) == Err::<Seq<char>, Seq<char>>(
            "Could not find "@ + ("edits["@ + strings::decimal(i as nat) + "]"@) + " in "@ + path
                + ". The oldText must match exactly including all whitespace and newlines."@,
        ),
{
    let once = text::fuzzy_form(normalized);
    let wanted = all_prepared(edits);
    assert forall|k: int| #![trigger wanted[k]] 0 <= k < wanted.len() implies wanted[k].old.len()
        > 0 && !only_fuzzy(normalized, once, wanted[k]) && (k < i ==> is_found(
        normalized,
        once,
        wanted[k],
    )) by {
        assert(wanted[k] == prepared(edits[k]));
        text::lemma_to_lf_something(edits[k].old_text@);
    }
    assert(!needs_fuzzy(normalized, once, wanted));
    lemma_first_empty(wanted, 0);
    lemma_blocks(normalized, once, wanted, i, path);
    assert(wanted[i] == prepared(edits[i]));
    assert(edits[i].old_text@.len() > 0);
    assert(located(normalized, once, wanted[i]) is None);
    assert(blocks_of(normalized, once, wanted, i + 1, path) == Err::<Seq<Block>, Seq<char>>(
        missing_error(i, wanted.len(), path),
    ));
    lemma_blocks_error(normalized, once, wanted, i + 1, wanted.len() as int, path);
}

/// A text in pieces with other pieces between them.
pub open spec fn woven(kept: Seq<Seq<char>>, between: Seq<Seq<char>>) -> Seq<char>
    decreases between.len(),
{
    if between.len() == 0 {
        kept[0]
    } else {
        woven(kept.drop_last(), between.drop_last()) + between.last() + kept.last()
    }
}

/// What stays between blocks that follow each other.
proof fn lemma_woven(content: Seq<char>, blocks: Seq<Block>) -> (kept: Seq<Seq<char>>)
    requires
        follow_within(blocks, 0, content.len() as int),
    ensures
        kept.len() == blocks.len() + 1,
        content == woven(
            kept,
            blocks.map_values(|block: Block| content.subrange(block.at, block.at + block.len)),
        ),
        spliced(content, blocks, 0) == woven(kept, blocks.map_values(|block: Block| block.new)),
    decreases blocks.len(),
{
    let news = blocks.map_values(|block: Block| block.new);
    let olds = blocks.map_values(
        |block: Block| content.subrange(block.at, block.at + block.len),
    );
    if blocks.len() == 0 {
        seq![content]
    } else {
        let last = blocks.last();
        let rest = blocks.drop_last();
        let head = content.take(last.at);
        assert(last == blocks[blocks.len() - 1]);
        assert(follow_within(rest, 0, head.len() as int)) by {
            assert forall|i: int| #![trigger rest[i]] 0 <= i < rest.len() implies 0 <= rest[i].at
                && 0 <= rest[i].len && rest[i].at + rest[i].len <= head.len() by {
                assert(rest[i] == blocks[i]);
            }
            assert forall|i: int, j: int| #![trigger rest[i], rest[j]]
                0 <= i < j < rest.len() implies rest[i].at + rest[i].len <= rest[j].at by {
                assert(rest[i] == blocks[i] && rest[j] == blocks[j]);
            }
        }
        let before = lemma_woven(head, rest);
        let tail = content.skip(last.at + last.len);
        let kept = before.push(tail);
        assert(kept.drop_last() =~= before);
        assert(news.drop_last() =~= rest.map_values(|block: Block| block.new));
        let parts = rest.map_values(
            |block: Block| head.subrange(block.at, block.at + block.len),
        );
        assert forall|i: int| 0 <= i < parts.len() implies parts[i] == olds.drop_last()[i] by {
            assert(rest[i] == blocks[i]);
            assert(rest[i].at + rest[i].len <= last.at);
            assert(parts[i] =~= olds[i]);
        }
        assert(olds.drop_last() =~= parts);
        assert(content =~= head + olds.last() + tail);
        kept
    }
}

/// Where every old text stands in the text as it is, edits that succeed change their old texts into
/// their new texts, each in its place and each once, and keep everything between them: the text is
/// made of pieces with the old texts between them, and what it becomes is made of the same pieces
/// with the new texts in the places of the old ones.
pub proof fn law_edits_change_their_old_texts_and_nothing_else(
    normalized: Seq<char>,
    edits: Seq<Edit>,
    path: Seq<char>,
)
    requires
        outcome_of(normalized, edits, path) is Ok,
        forall|i: int| #![trigger edits[i]]
            0 <= i < edits.len() ==> strings::holds(normalized, text::to_lf(edits[i].old_text@)),
    ensures
        exists|order: Seq<int>, kept: Seq<Seq<char>>|
            #![trigger order.no_duplicates(), woven(kept, seq![])]
            {
                &&& order.len() == edits.len() && order.no_duplicates()
                &&& forall|k: int| #![trigger order[k]]
                    0 <= k < order.len() ==> 0 <= order[k] < edits.len()
                &&& kept.len() == edits.len() + 1
                &&& normalized == woven(
                    kept,
                    order.map_values(|i: int| text::to_lf(edits[i].old_text@)),
                )
                &&& outcome_of(normalized, edits, path)->Ok_0 == woven(
                    kept,
                    order.map_values(|i: int| text::to_lf(edits[i].new_text@)),
                )
            },
{
    let once = text::fuzzy_form(normalized);
    let twice = text::fuzzy_form(once);
    let wanted = all_prepared(edits);
    let count = wanted.len() as int;
    assert forall|i: int| #![trigger wanted[i]] 0 <= i < count implies !only_fuzzy(
        normalized,
        once,
        wanted[i],
    ) by {
        assert(wanted[i] == prepared(edits[i]));
        assert(strings::holds(normalized, text::to_lf(edits[i].old_text@)));
    }
    assert(!needs_fuzzy(normalized, once, wanted));
    lemma_first_empty(wanted, 0);
    lemma_blocks(normalized, once, wanted, count, path);
    let blocks = blocks_of(normalized, once, wanted, count, path)->Ok_0;
    assert forall|i: int| #![trigger blocks[i]] 0 <= i < count implies blocks[i].edit == i
        && blocks[i].len == wanted[i].old.len() && blocks[i].len > 0 && blocks[i].new
        == wanted[i].new && strings::stands_at(normalized, wanted[i].old, blocks[i].at) by {
        assert(wanted[i] == prepared(edits[i]));
        assert(strings::holds(normalized, text::to_lf(edits[i].old_text@)));
        assert(wanted[i].old.len() > 0);
        strings::lemma_find_from(normalized, wanted[i].old, 0);
    }
    let sorted = in_order(blocks);
    lemma_sorted_has(blocks);
    law_blocks_are_sorted(blocks);
    lemma_sorted_len(blocks);
    assert forall|k: int| #![trigger sorted[k]] 0 <= k < sorted.len() implies 0 <= sorted[k].edit
        < count && sorted[k] == blocks[sorted[k].edit] by {
        assert(sorted.contains(sorted[k]));
        let i = choose|i: int| 0 <= i < blocks.len() && blocks[i] == sorted[k];
        assert(blocks[i].edit == i);
    }
    lemma_no_overlap(sorted, 0);
    assert(follow_within(sorted, 0, normalized.len() as int));
    let kept = lemma_woven(normalized, sorted);
    let order = sorted.map_values(|block: Block| block.edit);
    assert forall|k: int, l: int|
        0 <= k < order.len() && 0 <= l < order.len() && k != l implies order[k] != order[l] by {
        assert(sorted[k] != sorted[l]);
        assert(sorted[k] == blocks[sorted[k].edit]);
        assert(sorted[l] == blocks[sorted[l].edit]);
    }
    assert(order.no_duplicates());
    let olds = order.map_values(|i: int| text::to_lf(edits[i].old_text@));
    let news = order.map_values(|i: int| text::to_lf(edits[i].new_text@));
    assert forall|k: int| 0 <= k < sorted.len() implies olds[k] == normalized.subrange(
        sorted[k].at,
        sorted[k].at + sorted[k].len,
    ) && news[k] == sorted[k].new by {
        assert(sorted[k] == blocks[order[k]]);
        assert(wanted[order[k]] == prepared(edits[order[k]]));
    }
    assert(olds =~= sorted.map_values(
        |block: Block| normalized.subrange(block.at, block.at + block.len),
    ));
    assert(news =~= sorted.map_values(|block: Block| block.new));
    let trigger = woven(kept, seq![]);
}

proof fn lemma_sorted_len(blocks: Seq<Block>)
    ensures
        in_order(blocks).len() == blocks.len(),
    decreases blocks.len(),
{
    if blocks.len() > 0 {
        lemma_sorted_len(blocks.drop_last());
        law_blocks_are_sorted(blocks.drop_last());
        lemma_inserted(in_order(blocks.drop_last()), blocks.last());
    }
}

/// The form in which an old text is matched in a text that is in fuzzy form.
pub open spec fn matched_form(fuzzy: Seq<char>, old: Seq<char>) -> Seq<char> {
    if strings::holds(fuzzy, old) {
        old
    } else {
        text::fuzzy_form(old)
    }
}

/// One edit that succeeds though its old text stands in the text only in fuzzy form changes the lines
/// that it matches in, and no others: in their fuzzy form, what was matched becomes the new text.
/// The fuzzy form of the text is taken to be its own fuzzy form.
pub proof fn law_a_fuzzy_edit_changes_the_lines_it_matches_in(
    normalized: Seq<char>,
    edit: Edit,
    path: Seq<char>,
)
    requires
        outcome_of(normalized, seq![edit], path) is Ok,
        !strings::holds(normalized, text::to_lf(edit.old_text@)),
        text::fuzzy_form(text::fuzzy_form(normalized)) == text::fuzzy_form(normalized),
    ensures
        ({
            let fuzzy = text::fuzzy_form(normalized);
            let old = text::to_lf(edit.old_text@);
            let matched = matched_form(fuzzy, old);
            exists|at: int, first: int, next: int|
                #![trigger strings::stands_at(fuzzy, matched, at), line_start(normalized, first),
                    line_start(normalized, next)]
                {
                    &&& strings::stands_at(fuzzy, matched, at)
                    &&& 0 <= first < next <= line_spans(normalized).len()
                    &&& line_start(fuzzy, first) <= at
                    &&& at + matched.len() <= line_start(fuzzy, next)
                    &&& outcome_of(normalized, seq![edit], path)->Ok_0 == normalized.take(
                        line_start(normalized, first),
                    ) + (fuzzy.subrange(line_start(fuzzy, first), at) + text::to_lf(edit.new_text@)
                        + fuzzy.subrange(at + matched.len(), line_start(fuzzy, next)))
                        + normalized.skip(line_start(normalized, next))
                }
        }),
{
    let once = text::fuzzy_form(normalized);
    let wanted = all_prepared(seq![edit]);
    let one = prepared(edit);
    assert(wanted.len() == 1 && wanted[0] == one);
    lemma_first_empty(wanted, 0);
    if !needs_fuzzy(normalized, once, wanted) {
        lemma_all_found(normalized, once, wanted, 1, path, 0);
    }
    lemma_blocks(once, once, wanted, 1, path);
    let blocks = blocks_of(once, once, wanted, 1, path)->Ok_0;
    let block = spot(once, once, one, 0);
    assert(is_found(once, once, wanted[0]));
    assert(blocks =~= seq![block]);
    let matched = matched_form(once, one.old);
    strings::lemma_find_from(once, one.old, 0);
    strings::lemma_find_from(once, one.fuzzy, 0);
    let at = block.at;
    assert(strings::stands_at(once, matched, at));
    assert(block.len == matched.len());
    let sorted = in_order(blocks);
    assert(blocks.drop_last() =~= Seq::<Block>::empty());
    assert(in_order(Seq::<Block>::empty()) =~= Seq::<Block>::empty());
    assert(sorted =~= seq![block]);
    let spans = line_spans(once);
    let none = Seq::<Block>::empty();
    assert(sorted.drop_last() =~= none);
    assert(touched_lines(spans, none) == Some(Seq::<Touched>::empty()));
    let (first, next) = line_range(spans, block)->0;
    let group = Touched { start: first, end: next, first: 0, last: 1 };
    let groups = touched_lines(spans, sorted)->0;
    assert(groups =~= seq![group]);
    lemma_touched_lines(once, sorted);
    assert(groups[0] == group && sorted[0] == block);
    let from = line_start(once, first);
    let to = line_start(once, next);
    let lines = once.subrange(from, to);
    law_lines_cover_the_text(normalized);
    law_lines_cover_the_text(once);
    lemma_line_start(once, 0, first);
    lemma_line_start(once, first, next);
    lemma_line_start(normalized, 0, first);
    lemma_line_start(normalized, first, next);
    assert(groups.drop_last() =~= Seq::<Touched>::empty());
    assert(rewritten(normalized, once, groups.drop_last(), sorted) =~= Seq::<char>::empty());
    assert(sorted.subrange(0, 1) =~= sorted);
    assert(line_start(normalized, 0) == 0);
    let changed = once.subrange(from, at) + one.new + once.subrange(at + matched.len(), to);
    assert(spliced(lines.take(at - from), none, from) == lines.take(at - from));
    assert(spliced(lines, sorted, from) =~= changed);
    assert(rewritten(normalized, once, groups, sorted) =~= normalized.take(
        line_start(normalized, first),
    ) + changed);
    assert(outcome_of(normalized, seq![edit], path)->Ok_0 =~= normalized.take(
        line_start(normalized, first),
    ) + changed + normalized.skip(line_start(normalized, next)));
}

/// What stays before group `g` of touched lines, or after the last group.
pub open spec fn kept_before(original: Seq<char>, groups: Seq<Touched>, g: int) -> Seq<char> {
    original.subrange(
        if g <= 0 {
            0
        } else {
            line_start(original, groups[g - 1].end)
        },
        if g >= groups.len() {
            original.len() as int
        } else {
            line_start(original, groups[g].start)
        },
    )
}

/// Where some edit matches only in fuzzy form, every line that is not touched stays as it was: the
/// text is made of pieces with the touched lines between them, and what it becomes is made of the
/// same pieces.
pub proof fn law_lines_that_are_not_touched_stay(
    original: Seq<char>,
    base: Seq<char>,
    blocks: Seq<Block>,
)
    requires
        preserved(original, base, blocks) is Ok,
        follow_within(blocks, 0, base.len() as int),
    ensures
        ({
            let groups = touched_lines(line_spans(base), blocks)->0;
            let kept = Seq::new(groups.len() + 1, |g: int| kept_before(original, groups, g));
            &&& original == woven(
                kept,
                groups.map_values(
                    |group: Touched|
                        original.subrange(
                            line_start(original, group.start),
                            line_start(original, group.end),
                        ),
                ),
            )
            &&& exists|changed: Seq<Seq<char>>|
                changed.len() == groups.len() && preserved(original, base, blocks)->Ok_0
                    == #[trigger] woven(kept, changed)
        }),
{
    let groups = touched_lines(line_spans(base), blocks)->0;
    let count = groups.len() as int;
    let kept = Seq::new(groups.len() + 1, |g: int| kept_before(original, groups, g));
    let olds = groups.map_values(
        |group: Touched|
            original.subrange(line_start(original, group.start), line_start(original, group.end)),
    );
    let news = groups.map_values(
        |group: Touched|
            spliced(
                base.subrange(line_start(base, group.start), line_start(base, group.end)),
                blocks.subrange(group.first, group.last),
                line_start(base, group.start),
            ),
    );
    lemma_touched_lines(base, blocks);
    lemma_woven_lines(original, base, groups, blocks, kept, olds, news, count);
    assert(groups.take(count) =~= groups);
    assert(kept.take(count + 1) =~= kept);
    assert(olds.take(count) =~= olds);
    assert(news.take(count) =~= news);
    if count > 0 {
        assert(groups.last() == groups[count - 1]);
    } else {
        law_lines_cover_the_text(original);
        assert(line_start(original, 0) == 0);
    }
    assert(original.take(original.len() as int) =~= original);
    assert(kept_before(original, groups, count) =~= original.skip(
        line_start(original, next_line(groups)),
    ));
}

proof fn lemma_woven_lines(
    original: Seq<char>,
    base: Seq<char>,
    groups: Seq<Touched>,
    blocks: Seq<Block>,
    kept: Seq<Seq<char>>,
    olds: Seq<Seq<char>>,
    news: Seq<Seq<char>>,
    upto: int,
)
    requires
        0 <= upto <= groups.len(),
        groups_follow(groups, line_spans(original).len(), blocks.len()),
        kept == Seq::new(groups.len() + 1, |g: int| kept_before(original, groups, g)),
        olds == groups.map_values(
            |group: Touched|
                original.subrange(
                    line_start(original, group.start),
                    line_start(original, group.end),
                ),
        ),
        news == groups.map_values(
            |group: Touched|
                spliced(
                    base.subrange(line_start(base, group.start), line_start(base, group.end)),
                    blocks.subrange(group.first, group.last),
                    line_start(base, group.start),
                ),
        ),
    ensures
        woven(kept.take(upto + 1), olds.take(upto)) == original.take(
            if upto >= groups.len() {
                original.len() as int
            } else {
                line_start(original, groups[upto].start)
            },
        ),
        woven(kept.take(upto + 1), news.take(upto)) == rewritten(
            original,
            base,
            groups.take(upto),
            blocks,
        ) + kept_before(original, groups, upto),
    decreases upto,
{
    let now = kept.take(upto + 1);
    let end = if upto >= groups.len() {
        original.len() as int
    } else {
        line_start(original, groups[upto].start)
    };
    assert(now.last() == kept_before(original, groups, upto));
    law_lines_cover_the_text(original);
    if upto < groups.len() {
        assert(groups[upto].start < groups[upto].end);
        lemma_line_start(original, 0, groups[upto].start);
    }
    if upto == 0 {
        assert(now[0] == kept_before(original, groups, 0));
        assert(kept_before(original, groups, 0) =~= original.take(end));
        assert(rewritten(original, base, groups.take(0), blocks) + now[0] =~= now[0]);
    } else {
        let group = groups[upto - 1];
        lemma_woven_lines(original, base, groups, blocks, kept, olds, news, upto - 1);
        assert(now.drop_last() =~= kept.take(upto));
        assert(olds.take(upto).drop_last() =~= olds.take(upto - 1));
        assert(news.take(upto).drop_last() =~= news.take(upto - 1));
        assert(olds.take(upto).last() == olds[upto - 1]);
        assert(news.take(upto).last() == news[upto - 1]);
        assert(groups.take(upto).drop_last() =~= groups.take(upto - 1));
        assert(groups.take(upto).last() == group);
        lemma_line_start(original, 0, group.start);
        lemma_line_start(original, group.start, group.end);
        if upto < groups.len() {
            assert(group.end <= groups[upto].start);
            lemma_line_start(original, group.end, groups[upto].start);
        } else {
            lemma_line_start(original, group.end, line_spans(original).len() as int);
        }
        if upto > 1 {
            assert(groups.take(upto - 1).last() == groups[upto - 2]);
        } else {
            assert(line_start(original, 0) == 0);
        }
        assert(kept_before(original, groups, upto - 1) =~= original.subrange(
            line_start(original, next_line(groups.take(upto - 1))),
            line_start(original, group.start),
        ));
        assert(woven(now, olds.take(upto)) =~= original.take(end));
        assert(woven(now, news.take(upto)) =~= rewritten(
            original,
            base,
            groups.take(upto),
            blocks,
        ) + kept_before(original, groups, upto));
    }
}

/// Where the new text of block `i` stands among replaced blocks.
proof fn lemma_new_is_spliced(content: Seq<char>, blocks: Seq<Block>, offset: int, i: int) -> (at:
    int)
    requires
        0 <= i < blocks.len(),
    ensures
        strings::stands_at(spliced(content, blocks, offset), blocks[i].new, at),
    decreases blocks.len(),
{
    let last = blocks.last();
    let all = spliced(content, blocks, offset);
    let head = spliced(content.take(last.at - offset), blocks.drop_last(), offset);
    if i == blocks.len() - 1 {
        let at = head.len() as int;
        assert(all.subrange(at, at + last.new.len()) =~= last.new);
        at
    } else {
        let at = lemma_new_is_spliced(
            content.take(last.at - offset),
            blocks.drop_last(),
            offset,
            i,
        );
        assert(blocks.drop_last()[i] == blocks[i]);
        assert(all.subrange(at, at + blocks[i].new.len()) =~= head.subrange(
            at,
            at + blocks[i].new.len(),
        ));
        at
    }
}

/// The group that block `i` is in.
proof fn lemma_some_group(spans: Seq<(int, int)>, blocks: Seq<Block>, i: int) -> (g: int)
    requires
        touched_lines(spans, blocks) is Some,
        0 <= i < blocks.len(),
    ensures
        0 <= g < touched_lines(spans, blocks)->0.len(),
        touched_lines(spans, blocks)->0[g].first <= i < touched_lines(spans, blocks)->0[g].last,
    decreases blocks.len(),
{
    let rest = blocks.drop_last();
    let groups = touched_lines(spans, blocks)->0;
    let before = touched_lines(spans, rest)->0;
    lemma_groups_within(spans, blocks);
    lemma_groups_within(spans, rest);
    if i == blocks.len() - 1 {
        if groups.len() == before.len() {
            assert(before.last() == before[before.len() - 1]);
        }
        groups.len() - 1
    } else {
        let g = lemma_some_group(spans, rest, i);
        g
    }
}

/// Where the new text of block `i` stands among rewritten lines.
proof fn lemma_new_is_rewritten(
    original: Seq<char>,
    base: Seq<char>,
    groups: Seq<Touched>,
    blocks: Seq<Block>,
    g: int,
    i: int,
) -> (at: int)
    requires
        0 <= g < groups.len(),
        0 <= groups[g].first <= i < groups[g].last <= blocks.len(),
    ensures
        strings::stands_at(rewritten(original, base, groups, blocks), blocks[i].new, at),
    decreases groups.len(),
{
    let group = groups.last();
    let before = groups.drop_last();
    let from = line_start(base, group.start);
    let to = line_start(base, group.end);
    let all = rewritten(original, base, groups, blocks);
    let head = rewritten(original, base, before, blocks);
    let between = original.subrange(
        line_start(original, next_line(before)),
        line_start(original, group.start),
    );
    let own = blocks.subrange(group.first, group.last);
    let new = blocks[i].new;
    if g == groups.len() - 1 {
        let k = lemma_new_is_spliced(base.subrange(from, to), own, from, i - group.first);
        let lines = spliced(base.subrange(from, to), own, from);
        assert(own[i - group.first] == blocks[i]);
        let at = (head + between).len() + k;
        assert(all.subrange(at, at + new.len()) =~= lines.subrange(k, k + new.len()));
        at
    } else {
        assert(before[g] == groups[g]);
        let at = lemma_new_is_rewritten(original, base, before, blocks, g, i);
        assert(all.subrange(at, at + new.len()) =~= head.subrange(at, at + new.len()));
        at
    }
}

/// Where edits succeed, the new text of each stands in what the text becomes, with nothing of it
/// changed but its line endings, also where old texts were matched in fuzzy form.
pub proof fn law_every_new_text_stands_in_the_result(
    normalized: Seq<char>,
    edits: Seq<Edit>,
    path: Seq<char>,
    i: int,
)
    requires
        outcome_of(normalized, edits, path) is Ok,
        0 <= i < edits.len(),
    ensures
        exists|at: int| #[trigger]
            strings::stands_at(
                outcome_of(normalized, edits, path)->Ok_0,
                text::to_lf(edits[i].new_text@),
                at,
            ),
        !edits[i].new_text@.contains('\r') ==> exists|at: int| #[trigger]
            strings::stands_at(
                outcome_of(normalized, edits, path)->Ok_0,
                edits[i].new_text@,
                at,
            ),
{
    broadcast use vstd::seq_lib::group_to_multiset_ensures;

    let once = text::fuzzy_form(normalized);
    let twice = text::fuzzy_form(once);
    let wanted = all_prepared(edits);
    let count = wanted.len() as int;
    let fuzzy = needs_fuzzy(normalized, once, wanted);
    let base = if fuzzy {
        once
    } else {
        normalized
    };
    let fuzzy_base = if fuzzy {
        twice
    } else {
        once
    };
    text::law_each_line_ending_becomes_a_line_feed(edits[i].new_text@, Seq::empty());
    lemma_blocks(base, fuzzy_base, wanted, count, path);
    let blocks = blocks_of(base, fuzzy_base, wanted, count, path)->Ok_0;
    assert(wanted[i] == prepared(edits[i]));
    assert(blocks[i].new == text::to_lf(edits[i].new_text@));
    let sorted = in_order(blocks);
    law_blocks_are_sorted(blocks);
    assert(blocks.contains(blocks[i]));
    assert(sorted.to_multiset().count(blocks[i]) > 0);
    assert(sorted.contains(blocks[i]));
    let p = choose|p: int| 0 <= p < sorted.len() && sorted[p] == blocks[i];
    let new = outcome_of(normalized, edits, path)->Ok_0;
    if fuzzy {
        let spans = line_spans(base);
        let groups = touched_lines(spans, sorted)->0;
        let g = lemma_some_group(spans, sorted, p);
        lemma_groups_within(spans, sorted);
        let at = lemma_new_is_rewritten(normalized, base, groups, sorted, g, p);
        let lines = rewritten(normalized, base, groups, sorted);
        assert(new.subrange(at, at + blocks[i].new.len()) =~= lines.subrange(
            at,
            at + blocks[i].new.len(),
        ));
        assert(strings::stands_at(new, blocks[i].new, at));
    } else {
        let at = lemma_new_is_spliced(base, sorted, 0, p);
        assert(strings::stands_at(new, blocks[i].new, at));
    }
}

// ---- The order of edits ----

/// A block without the number of its edit.
pub open spec fn bare(block: Block) -> Block {
    Block { edit: 0, ..block }
}

/// Blocks that replace the same stretches with the same texts.
pub open spec fn same_spots(a: Seq<Block>, b: Seq<Block>) -> bool {
    a.map_values(|block: Block| bare(block)) == b.map_values(|block: Block| bare(block))
}

proof fn lemma_same_spot(a: Seq<Block>, b: Seq<Block>, i: int)
    requires
        same_spots(a, b),
        0 <= i < a.len(),
    ensures
        a.len() == b.len(),
        a[i].at == b[i].at,
        a[i].len == b[i].len,
        a[i].new == b[i].new,
{
    let x = a.map_values(|block: Block| bare(block));
    let y = b.map_values(|block: Block| bare(block));
    assert(x.len() == y.len());
    assert(x[i] == bare(a[i]));
    assert(y[i] == bare(b[i]));
}

proof fn lemma_same_spots_part(a: Seq<Block>, b: Seq<Block>, from: int, to: int)
    requires
        same_spots(a, b),
        0 <= from <= to <= a.len(),
    ensures
        same_spots(a.subrange(from, to), b.subrange(from, to)),
        a.len() == b.len(),
{
    let x = a.map_values(|block: Block| bare(block));
    let y = b.map_values(|block: Block| bare(block));
    assert(x.len() == y.len());
    assert(a.subrange(from, to).map_values(|block: Block| bare(block)) =~= x.subrange(from, to));
    assert(b.subrange(from, to).map_values(|block: Block| bare(block)) =~= y.subrange(from, to));
}

proof fn lemma_same_spots_shorter(a: Seq<Block>, b: Seq<Block>)
    requires
        same_spots(a, b),
        a.len() > 0,
    ensures
        a.len() == b.len(),
        same_spots(a.drop_last(), b.drop_last()),
        a.last().at == b.last().at,
        a.last().len == b.last().len,
        a.last().new == b.last().new,
{
    lemma_same_spots_part(a, b, 0, a.len() - 1);
    assert(a.subrange(0, a.len() - 1) =~= a.drop_last());
    assert(b.subrange(0, b.len() - 1) =~= b.drop_last());
    lemma_same_spot(a, b, a.len() - 1);
}

proof fn lemma_same_spliced(content: Seq<char>, a: Seq<Block>, b: Seq<Block>, offset: int)
    requires
        same_spots(a, b),
    ensures
        spliced(content, a, offset) == spliced(content, b, offset),
    decreases a.len(),
{
    lemma_same_spots_part(a, b, 0, 0);
    if a.len() > 0 {
        lemma_same_spots_shorter(a, b);
        lemma_same_spliced(
            content.take(a.last().at - offset),
            a.drop_last(),
            b.drop_last(),
            offset,
        );
    }
}

proof fn lemma_same_touched(spans: Seq<(int, int)>, a: Seq<Block>, b: Seq<Block>)
    requires
        same_spots(a, b),
    ensures
        touched_lines(spans, a) == touched_lines(spans, b),
    decreases a.len(),
{
    lemma_same_spots_part(a, b, 0, 0);
    if a.len() > 0 {
        lemma_same_spots_shorter(a, b);
        lemma_same_touched(spans, a.drop_last(), b.drop_last());
        assert(line_range(spans, a.last()) == line_range(spans, b.last()));
    }
}

proof fn lemma_same_rewritten(
    original: Seq<char>,
    base: Seq<char>,
    groups: Seq<Touched>,
    a: Seq<Block>,
    b: Seq<Block>,
)
    requires
        same_spots(a, b),
        forall|i: int| #![trigger groups[i]]
            0 <= i < groups.len() ==> 0 <= groups[i].first <= groups[i].last <= a.len(),
    ensures
        rewritten(original, base, groups, a) == rewritten(original, base, groups, b),
    decreases groups.len(),
{
    if groups.len() > 0 {
        let group = groups.last();
        let before = groups.drop_last();
        assert(group == groups[groups.len() - 1]);
        assert forall|i: int| #![trigger before[i]] 0 <= i < before.len() implies 0
            <= before[i].first <= before[i].last <= a.len() by {
            assert(before[i] == groups[i]);
        }
        lemma_same_rewritten(original, base, before, a, b);
        lemma_same_spots_part(a, b, group.first, group.last);
        let from = line_start(base, group.start);
        let to = line_start(base, group.end);
        lemma_same_spliced(
            base.subrange(from, to),
            a.subrange(group.first, group.last),
            b.subrange(group.first, group.last),
            from,
        );
    }
}

/// The blocks of a group are among all blocks.
proof fn lemma_groups_within(spans: Seq<(int, int)>, blocks: Seq<Block>)
    ensures
        touched_lines(spans, blocks) matches Some(groups) ==> forall|i: int| #![trigger groups[i]]
            0 <= i < groups.len() ==> 0 <= groups[i].first <= groups[i].last <= blocks.len(),
    decreases blocks.len(),
{
    if blocks.len() > 0 {
        lemma_groups_within(spans, blocks.drop_last());
        match touched_lines(spans, blocks) {
            Some(groups) => {
                let before = touched_lines(spans, blocks.drop_last())->0;
                assert forall|i: int| #![trigger groups[i]] 0 <= i < groups.len() implies 0
                    <= groups[i].first <= groups[i].last <= blocks.len() by {
                    if i < before.len() {
                        assert(0 <= before[i].first <= before[i].last <= blocks.len());
                    }
                }
            },
            None => {},
        }
    }
}

/// What is replaced depends on the spots alone.
proof fn lemma_same_replaced(
    normalized: Seq<char>,
    base: Seq<char>,
    fuzzy: bool,
    a: Seq<Block>,
    b: Seq<Block>,
)
    requires
        same_spots(a, b),
    ensures
        replaced(normalized, base, fuzzy, a) == replaced(normalized, base, fuzzy, b),
{
    if fuzzy {
        let spans = line_spans(base);
        lemma_same_touched(spans, a, b);
        lemma_groups_within(spans, a);
        match touched_lines(spans, a) {
            Some(groups) => {
                lemma_same_rewritten(normalized, base, groups, a, b);
            },
            None => {},
        }
    } else {
        lemma_same_spliced(base, a, b, 0);
    }
}

/// Whether the old text of an edit is there, and only once.
pub open spec fn is_found(base: Seq<char>, fuzzy_base: Seq<char>, wanted: Wanted) -> bool {
    &&& located(base, fuzzy_base, wanted) is Some
    &&& strings::occurrences_from(fuzzy_base, wanted.fuzzy, 0) <= 1
}

/// What an edit replaces that was found.
pub open spec fn spot(base: Seq<char>, fuzzy_base: Seq<char>, wanted: Wanted, edit: int) -> Block {
    let (at, len) = located(base, fuzzy_base, wanted)->0;
    Block { edit, at, len, new: wanted.new }
}

/// All edits have blocks exactly where all of them are found.
proof fn lemma_blocks(
    base: Seq<char>,
    fuzzy_base: Seq<char>,
    wanted: Seq<Wanted>,
    upto: int,
    path: Seq<char>,
)
    requires
        0 <= upto <= wanted.len(),
    ensures
        blocks_of(base, fuzzy_base, wanted, upto, path) is Ok <==> forall|i: int|
            #![trigger wanted[i]]
            0 <= i < upto ==> is_found(base, fuzzy_base, wanted[i]),
        blocks_of(base, fuzzy_base, wanted, upto, path) matches Ok(blocks) ==> blocks.len() == upto
            && forall|i: int| #![trigger blocks[i]]
            0 <= i < upto ==> blocks[i] == spot(base, fuzzy_base, wanted[i], i),
    decreases upto,
{
    if upto > 0 {
        lemma_blocks(base, fuzzy_base, wanted, upto - 1, path);
        assert(is_found(base, fuzzy_base, wanted[upto - 1]) <==> located(
            base,
            fuzzy_base,
            wanted[upto - 1],
        ) is Some && strings::occurrences_from(fuzzy_base, wanted[upto - 1].fuzzy, 0) <= 1);
    }
}

proof fn lemma_first_empty(wanted: Seq<Wanted>, from: int)
    requires
        0 <= from,
    ensures
        first_empty(wanted, from) is None <==> forall|i: int| #![trigger wanted[i]]
            from <= i < wanted.len() ==> wanted[i].old.len() > 0,
    decreases wanted.len() - from,
{
    if from < wanted.len() && wanted[from].old.len() > 0 {
        lemma_first_empty(wanted, from + 1);
    }
}

/// Blocks that follow each other do not overlap.
proof fn lemma_apart(sorted: Seq<Block>, from: int)
    requires
        0 <= from,
        forall|i: int, j: int| #![trigger sorted[i], sorted[j]]
            0 <= i < j < sorted.len() ==> sorted[i].at + sorted[i].len <= sorted[j].at,
    ensures
        first_overlap(sorted, from) is None,
    decreases sorted.len() - from,
{
    if from + 1 < sorted.len() {
        lemma_apart(sorted, from + 1);
    }
}

/// There is one way to list blocks by where they begin, where no two begin together.
proof fn lemma_one_order(x: Seq<Block>, y: Seq<Block>)
    requires
        forall|i: int, j: int| #![trigger x[i], x[j]] 0 <= i < j < x.len() ==> x[i].at < x[j].at,
        forall|i: int, j: int| #![trigger y[i], y[j]] 0 <= i < j < y.len() ==> y[i].at < y[j].at,
        forall|block: Block| #[trigger] x.contains(block) <==> y.contains(block),
    ensures
        x == y,
    decreases x.len(),
{
    if x.len() == 0 {
        if y.len() > 0 {
            assert(y.contains(y[0]));
            assert(x.contains(y[0]));
        }
        assert(x =~= y);
    } else {
        assert(x.contains(x[x.len() - 1]));
        assert(y.contains(x.last()));
        let p = choose|p: int| 0 <= p < y.len() && y[p] == x.last();
        assert(y.contains(y[y.len() - 1]));
        assert(x.contains(y.last()));
        let q = choose|q: int| 0 <= q < x.len() && x[q] == y.last();
        assert(x.last() == y.last()) by {
            if p < y.len() - 1 {
                assert(y[p].at < y[y.len() - 1].at);
                if q < x.len() - 1 {
                    assert(x[q].at < x[x.len() - 1].at);
                }
            }
        }
        let a = x.drop_last();
        let b = y.drop_last();
        assert forall|block: Block| #[trigger] a.contains(block) <==> b.contains(block) by {
            if a.contains(block) {
                let i = choose|i: int| 0 <= i < a.len() && a[i] == block;
                assert(x[i] == block);
                assert(x.contains(block));
                assert(x[i].at < x[x.len() - 1].at);
                assert(y.contains(block));
                let j = choose|j: int| 0 <= j < y.len() && y[j] == block;
                assert(b[j] == block);
            }
            if b.contains(block) {
                let i = choose|i: int| 0 <= i < b.len() && b[i] == block;
                assert(y[i] == block);
                assert(y.contains(block));
                assert(y[i].at < y[y.len() - 1].at);
                assert(x.contains(block));
                let j = choose|j: int| 0 <= j < x.len() && x[j] == block;
                assert(a[j] == block);
            }
        }
        lemma_one_order(a, b);
        assert(x =~= a.push(x.last()));
        assert(y =~= b.push(y.last()));
    }
}

/// Whether two stretches have nothing in common.
spec fn disjoint(a: Block, b: Block) -> bool {
    a.at + a.len <= b.at || b.at + b.len <= a.at
}

spec fn pairwise_disjoint(blocks: Seq<Block>) -> bool {
    forall|i: int, j: int| #![trigger blocks[i], blocks[j]]
        0 <= i < blocks.len() && 0 <= j < blocks.len() && i != j ==> disjoint(blocks[i], blocks[j])
}

/// Blocks of edits in the order of the edits, none empty.
spec fn are_numbered(blocks: Seq<Block>) -> bool {
    forall|i: int| #![trigger blocks[i]]
        0 <= i < blocks.len() ==> blocks[i].edit == i && blocks[i].len > 0
}

/// A block of an edit is found again among the sorted ones, and nothing else is there.
proof fn lemma_sorted_has(blocks: Seq<Block>)
    requires
        are_numbered(blocks),
    ensures
        in_order(blocks).no_duplicates(),
        forall|block: Block| #[trigger] in_order(blocks).contains(block) <==> blocks.contains(block),
{
    broadcast use vstd::seq_lib::group_to_multiset_ensures;

    let sorted = in_order(blocks);
    law_blocks_are_sorted(blocks);
    assert(blocks.no_duplicates()) by {
        assert forall|i: int, j: int|
            0 <= i < blocks.len() && 0 <= j < blocks.len() && i != j implies blocks[i]
            != blocks[j] by {
            assert(blocks[i].edit == i);
            assert(blocks[j].edit == j);
        }
    }
    blocks.lemma_multiset_has_no_duplicates();
    sorted.lemma_multiset_has_no_duplicates_conv();
    assert forall|block: Block| #[trigger] sorted.contains(block) <==> blocks.contains(block) by {
        assert(sorted.contains(block) <==> sorted.to_multiset().count(block) > 0);
        assert(blocks.contains(block) <==> blocks.to_multiset().count(block) > 0);
    }
}

/// Sorted blocks follow each other exactly where no two of them overlap.
proof fn lemma_follow(blocks: Seq<Block>)
    requires
        are_numbered(blocks),
    ensures
        first_overlap(in_order(blocks), 0) is None <==> pairwise_disjoint(blocks),
        pairwise_disjoint(blocks) ==> forall|i: int, j: int|
            #![trigger in_order(blocks)[i], in_order(blocks)[j]]
            0 <= i < j < in_order(blocks).len() ==> in_order(blocks)[i].at < in_order(
                blocks,
            )[j].at,
{
    let sorted = in_order(blocks);
    law_blocks_are_sorted(blocks);
    lemma_sorted_has(blocks);
    assert forall|k: int| #![trigger sorted[k]] 0 <= k < sorted.len() implies 0 <= sorted[k].edit
        < blocks.len() && sorted[k] == blocks[sorted[k].edit] && sorted[k].len > 0 by {
        assert(sorted.contains(sorted[k]));
        let i = choose|i: int| 0 <= i < blocks.len() && blocks[i] == sorted[k];
        assert(blocks[i].edit == i);
    }
    if first_overlap(sorted, 0) is None {
        lemma_no_overlap(sorted, 0);
        assert forall|i: int, j: int| #![trigger blocks[i], blocks[j]]
            0 <= i < blocks.len() && 0 <= j < blocks.len() && i != j implies disjoint(
            blocks[i],
            blocks[j],
        ) by {
            assert(blocks.contains(blocks[i]) && blocks.contains(blocks[j]));
            assert(sorted.contains(blocks[i]) && sorted.contains(blocks[j]));
            let p = choose|p: int| 0 <= p < sorted.len() && sorted[p] == blocks[i];
            let q = choose|q: int| 0 <= q < sorted.len() && sorted[q] == blocks[j];
            assert(sorted[p].edit == i && sorted[q].edit == j);
            if p < q {
                assert(sorted[p].at + sorted[p].len <= sorted[q].at);
            } else {
                assert(sorted[q].at + sorted[q].len <= sorted[p].at);
            }
        }
    }
    if pairwise_disjoint(blocks) {
        assert forall|k: int, l: int| #![trigger sorted[k], sorted[l]]
            0 <= k < l < sorted.len() implies sorted[k].at + sorted[k].len <= sorted[l].at by {
            assert(sorted[k] != sorted[l]);
            let i = sorted[k].edit;
            let j = sorted[l].edit;
            assert(blocks[i] != blocks[j]);
            assert(disjoint(blocks[i], blocks[j]));
            assert(sorted[k].at <= sorted[l].at);
        }
        lemma_apart(sorted, 0);
    }
}

/// Edits that are listed in another order replace the same spots, where none overlap.
proof fn lemma_any_order(
    base: Seq<char>,
    fuzzy_base: Seq<char>,
    wanted: Seq<Wanted>,
    other: Seq<Wanted>,
    a: Seq<Block>,
    b: Seq<Block>,
)
    requires
        wanted.to_multiset() == other.to_multiset(),
        a.len() == wanted.len(),
        b.len() == other.len(),
        forall|i: int| #![trigger a[i]]
            0 <= i < a.len() ==> a[i] == spot(base, fuzzy_base, wanted[i], i) && a[i].len > 0,
        forall|i: int| #![trigger b[i]]
            0 <= i < b.len() ==> b[i] == spot(base, fuzzy_base, other[i], i) && b[i].len > 0,
        first_overlap(in_order(a), 0) is None,
    ensures
        first_overlap(in_order(b), 0) is None,
        same_spots(in_order(a), in_order(b)),
{
    broadcast use vstd::seq_lib::group_to_multiset_ensures;

    lemma_follow(a);
    assert(wanted.no_duplicates()) by {
        assert forall|i: int, j: int|
            0 <= i < wanted.len() && 0 <= j < wanted.len() && i != j implies wanted[i]
            != wanted[j] by {
            assert(disjoint(a[i], a[j]));
        }
    }
    wanted.lemma_multiset_has_no_duplicates();
    other.lemma_multiset_has_no_duplicates_conv();
    assert forall|one: Wanted| #[trigger] wanted.contains(one) <==> other.contains(one) by {
        assert(wanted.contains(one) <==> wanted.to_multiset().count(one) > 0);
        assert(other.contains(one) <==> other.to_multiset().count(one) > 0);
    }
    assert(pairwise_disjoint(b)) by {
        assert forall|i: int, j: int| #![trigger b[i], b[j]]
            0 <= i < b.len() && 0 <= j < b.len() && i != j implies disjoint(b[i], b[j]) by {
            assert(other.contains(other[i]) && other.contains(other[j]));
            assert(wanted.contains(other[i]) && wanted.contains(other[j]));
            let p = choose|p: int| 0 <= p < wanted.len() && wanted[p] == other[i];
            let q = choose|q: int| 0 <= q < wanted.len() && wanted[q] == other[j];
            assert(p != q);
            assert(disjoint(a[p], a[q]));
        }
    }
    lemma_follow(b);
    lemma_sorted_has(a);
    lemma_sorted_has(b);
    let first = in_order(a);
    let second = in_order(b);
    let x = first.map_values(|block: Block| bare(block));
    let y = second.map_values(|block: Block| bare(block));
    assert forall|block: Block| #[trigger] x.contains(block) <==> y.contains(block) by {
        if x.contains(block) {
            let k = choose|k: int| 0 <= k < x.len() && x[k] == block;
            assert(first.contains(first[k]));
            let p = choose|p: int| 0 <= p < a.len() && a[p] == first[k];
            assert(wanted.contains(wanted[p]));
            assert(other.contains(wanted[p]));
            let q = choose|q: int| 0 <= q < other.len() && other[q] == wanted[p];
            assert(b.contains(b[q]));
            assert(second.contains(b[q]));
            let l = choose|l: int| 0 <= l < second.len() && second[l] == b[q];
            assert(y[l] == block);
        }
        if y.contains(block) {
            let k = choose|k: int| 0 <= k < y.len() && y[k] == block;
            assert(second.contains(second[k]));
            let p = choose|p: int| 0 <= p < b.len() && b[p] == second[k];
            assert(other.contains(other[p]));
            assert(wanted.contains(other[p]));
            let q = choose|q: int| 0 <= q < wanted.len() && wanted[q] == other[p];
            assert(a.contains(a[q]));
            assert(first.contains(a[q]));
            let l = choose|l: int| 0 <= l < first.len() && first[l] == a[q];
            assert(x[l] == block);
        }
    }
    assert forall|i: int, j: int| #![trigger x[i], x[j]] 0 <= i < j < x.len() implies x[i].at
        < x[j].at by {
        assert(first[i].at < first[j].at);
    }
    assert forall|i: int, j: int| #![trigger y[i], y[j]] 0 <= i < j < y.len() implies y[i].at
        < y[j].at by {
        assert(second[i].at < second[j].at);
    }
    lemma_one_order(x, y);
}

/// The order in which edits are listed does not matter: where they succeed, they succeed in any
/// order, with the same text. Where some edit matches only in fuzzy form, what is left of the text
/// in that form must not vanish when its fuzzy form is taken again.
pub proof fn law_order_does_not_matter(
    normalized: Seq<char>,
    once: Seq<char>,
    twice: Seq<char>,
    wanted: Seq<Wanted>,
    other: Seq<Wanted>,
    path: Seq<char>,
)
    requires
        wanted.to_multiset() == other.to_multiset(),
        needs_fuzzy(normalized, once, wanted) && once.len() > 0 ==> twice.len() > 0,
    ensures
        edit_outcome(normalized, once, twice, wanted, path) matches Ok(new) ==> edit_outcome(
            normalized,
            once,
            twice,
            other,
            path,
        ) == Ok::<Seq<char>, Seq<char>>(new),
{
    broadcast use vstd::seq_lib::group_to_multiset_ensures;

    if edit_outcome(normalized, once, twice, wanted, path) is Ok {
        let fuzzy = needs_fuzzy(normalized, once, wanted);
        let base = if fuzzy {
            once
        } else {
            normalized
        };
        let fuzzy_base = if fuzzy {
            twice
        } else {
            once
        };
        assert forall|one: Wanted| #[trigger] wanted.contains(one) <==> other.contains(one) by {
            assert(wanted.contains(one) <==> wanted.to_multiset().count(one) > 0);
            assert(other.contains(one) <==> other.to_multiset().count(one) > 0);
        }
        lemma_first_empty(wanted, 0);
        lemma_blocks(base, fuzzy_base, wanted, wanted.len() as int, path);
        let a = blocks_of(base, fuzzy_base, wanted, wanted.len() as int, path)->Ok_0;
        assert forall|i: int| #![trigger other[i]] 0 <= i < other.len() implies other[i].old.len()
            > 0 && is_found(base, fuzzy_base, other[i]) by {
            assert(other.contains(other[i]));
            assert(wanted.contains(other[i]));
            let k = choose|k: int| 0 <= k < wanted.len() && wanted[k] == other[i];
            assert(is_found(base, fuzzy_base, wanted[k]));
        }
        lemma_first_empty(other, 0);
        lemma_blocks(base, fuzzy_base, other, other.len() as int, path);
        let b = blocks_of(base, fuzzy_base, other, other.len() as int, path)->Ok_0;
        assert(needs_fuzzy(normalized, once, other) == fuzzy) by {
            if fuzzy {
                let i = choose|i: int|
                    0 <= i < wanted.len() && only_fuzzy(normalized, once, #[trigger] wanted[i]);
                assert(wanted.contains(wanted[i]));
                assert(other.contains(wanted[i]));
                let k = choose|k: int| 0 <= k < other.len() && other[k] == wanted[i];
                assert(only_fuzzy(normalized, once, other[k]));
            }
            if needs_fuzzy(normalized, once, other) {
                let i = choose|i: int|
                    0 <= i < other.len() && only_fuzzy(normalized, once, #[trigger] other[i]);
                assert(other.contains(other[i]));
                assert(wanted.contains(other[i]));
                let k = choose|k: int| 0 <= k < wanted.len() && wanted[k] == other[i];
                assert(only_fuzzy(normalized, once, wanted[k]));
            }
        }
        assert forall|i: int| #![trigger a[i]] 0 <= i < a.len() implies a[i].len > 0 by {
            assert(is_found(base, fuzzy_base, wanted[i]));
            if fuzzy {
                if once.len() == 0 {
                    let sorted = in_order(a);
                    law_blocks_are_sorted(a);
                    assert(sorted.len() == a.len());
                    assert(line_spans(base).len() == 0);
                    assert(line_range(line_spans(base), sorted.last()) is None);
                    assert(touched_lines(line_spans(base), sorted) is None);
                }
            } else {
                lemma_all_found(normalized, once, wanted, wanted.len() as int, path, i);
                strings::lemma_find_from(normalized, wanted[i].old, 0);
            }
        }
        assert forall|i: int| #![trigger b[i]] 0 <= i < b.len() implies b[i].len > 0 by {
            assert(other.contains(other[i]));
            assert(wanted.contains(other[i]));
            let k = choose|k: int| 0 <= k < wanted.len() && wanted[k] == other[i];
            assert(a[k].len > 0);
        }
        lemma_any_order(base, fuzzy_base, wanted, other, a, b);
        lemma_same_replaced(normalized, base, fuzzy, in_order(a), in_order(b));
    }
}

/// The place of an old text that stands in a text.
pub open spec fn place_of(normalized: Seq<char>, edit: Edit) -> int {
    strings::find(normalized, text::to_lf(edit.old_text@))->0
}

/// Whether the old texts of two edits share a place: one begins before the other ends.
pub open spec fn clash(normalized: Seq<char>, one: Edit, other: Edit) -> bool {
    &&& place_of(normalized, one) < place_of(normalized, other) + text::to_lf(other.old_text@).len()
    &&& place_of(normalized, other) < place_of(normalized, one) + text::to_lf(one.old_text@).len()
}

/// Edits whose old texts stand in the text, each once in fuzzy form, are made exactly where no two of
/// them share a place, be they next to each other or not, unless they change nothing. Where two
/// share a place, the answer names such a pair.
pub proof fn law_edits_are_made_where_none_overlap(
    normalized: Seq<char>,
    edits: Seq<Edit>,
    path: Seq<char>,
)
    requires
        forall|i: int| #![trigger edits[i]]
            0 <= i < edits.len() ==> edits[i].old_text@.len() > 0 && strings::holds(
                normalized,
                text::to_lf(edits[i].old_text@),
            ) && strings::occurrences_from(
                text::fuzzy_form(normalized),
                text::fuzzy_form(text::to_lf(edits[i].old_text@)),
                0,
            ) <= 1,
    ensures
        (forall|i: int, j: int| #![trigger edits[i], edits[j]]
            0 <= i < j < edits.len() ==> !clash(normalized, edits[i], edits[j])) ==> (outcome_of(
            normalized,
            edits,
            path,
        ) is Ok || outcome_of(normalized, edits, path) == Err::<Seq<char>, Seq<char>>(
            unchanged_error(edits.len(), path),
        )),
        (exists|i: int, j: int| #![trigger edits[i], edits[j]]
            0 <= i < j < edits.len() && clash(normalized, edits[i], edits[j])) ==> exists|
            i: int,
            j: int,
        |
            #![trigger edits[i], edits[j]]
            0 <= i < edits.len() && 0 <= j < edits.len() && i != j && clash(
                normalized,
                edits[i],
                edits[j],
            ) && outcome_of(normalized, edits, path) == Err::<Seq<char>, Seq<char>>(
                ("edits["@ + strings::decimal(i as nat) + "]"@) + " and "@ + ("edits["@
                    + strings::decimal(j as nat) + "]"@) + " overlap in "@ + path
                    + ". Merge them into one edit or target disjoint regions."@,
            ),
{
    let once = text::fuzzy_form(normalized);
    let wanted = all_prepared(edits);
    let count = wanted.len() as int;
    assert forall|i: int| #![trigger wanted[i]] 0 <= i < count implies wanted[i].old.len() > 0
        && !only_fuzzy(normalized, once, wanted[i]) && is_found(normalized, once, wanted[i]) by {
        assert(wanted[i] == prepared(edits[i]));
        assert(edits[i].old_text@.len() > 0);
        text::lemma_to_lf_something(edits[i].old_text@);
    }
    assert(!needs_fuzzy(normalized, once, wanted));
    lemma_first_empty(wanted, 0);
    lemma_blocks(normalized, once, wanted, count, path);
    let blocks = blocks_of(normalized, once, wanted, count, path)->Ok_0;
    assert forall|i: int| #![trigger blocks[i]] 0 <= i < count implies blocks[i].edit == i
        && blocks[i].len == text::to_lf(edits[i].old_text@).len() && blocks[i].len > 0
        && blocks[i].at == place_of(normalized, edits[i]) by {
        assert(wanted[i] == prepared(edits[i]));
        assert(wanted[i].old.len() > 0);
        assert(edits[i].old_text@.len() > 0);
    }
    lemma_follow(blocks);
    let sorted = in_order(blocks);
    if forall|i: int, j: int| #![trigger edits[i], edits[j]]
        0 <= i < j < edits.len() ==> !clash(normalized, edits[i], edits[j]) {
        assert forall|i: int, j: int| #![trigger blocks[i], blocks[j]]
            0 <= i < blocks.len() && 0 <= j < blocks.len() && i != j implies disjoint(
            blocks[i],
            blocks[j],
        ) by {
            if i < j {
                assert(!clash(normalized, edits[i], edits[j]));
            } else {
                assert(!clash(normalized, edits[j], edits[i]));
            }
        }
        assert(pairwise_disjoint(blocks));
    }
    if exists|i: int, j: int| #![trigger edits[i], edits[j]]
        0 <= i < j < edits.len() && clash(normalized, edits[i], edits[j]) {
        let (i, j) = choose|i: int, j: int|
            #![trigger edits[i], edits[j]]
            0 <= i < j < edits.len() && clash(normalized, edits[i], edits[j]);
        assert(!disjoint(blocks[i], blocks[j]));
        let k = first_overlap(sorted, 0)->0;
        lemma_overlap_at(sorted, 0);
        law_blocks_are_sorted(blocks);
        lemma_sorted_has(blocks);
        assert(sorted.contains(sorted[k]) && sorted.contains(sorted[k + 1]));
        let p = choose|p: int| 0 <= p < blocks.len() && blocks[p] == sorted[k];
        let q = choose|q: int| 0 <= q < blocks.len() && blocks[q] == sorted[k + 1];
        assert(blocks[p].edit == p && blocks[q].edit == q);
        assert(sorted[k] != sorted[k + 1]);
        assert(sorted[k].at <= sorted[k + 1].at);
        assert(clash(normalized, edits[p], edits[q]));
    }
}

proof fn lemma_overlap_at(sorted: Seq<Block>, from: int)
    requires
        0 <= from,
    ensures
        first_overlap(sorted, from) matches Some(k) ==> from <= k && k + 1 < sorted.len()
            && sorted[k].at + sorted[k].len > sorted[k + 1].at,
    decreases sorted.len() - from,
{
    if from + 1 < sorted.len() && sorted[from].at + sorted[from].len <= sorted[from + 1].at {
        lemma_overlap_at(sorted, from + 1);
    }
}

} // verus!
