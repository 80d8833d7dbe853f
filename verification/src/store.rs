//! Durable state: agent records, inboxes, and transcripts. Each transcript is an append-only
//! file of JSON lines that other agents may read; readers take no locks, so they cannot stall
//! the writer. Only finished items are written, never streaming deltas.

use crate::agent;
use crate::agent::{AgentState, Entry, Item};
use crate::paths;
use crate::paths::join;
use crate::sandbox;
use crate::strings;
use crate::strings::same;
use crate::tools::Reply;
use vstd::prelude::*;

verus! {

// ---- Time and ids ----

/// `SystemTime::elapsed` of the Unix epoch: whole seconds since it, and nanoseconds of the one
/// that goes on; none before it. What time it is, is left open.
#[verifier::external_body]
fn clock() -> (since: Option<(u64, u32)>)
    ensures
        since matches Some(time) ==> time.1 < 1_000_000_000,
{
    std::time::UNIX_EPOCH.elapsed().ok().map(|since| (since.as_secs(), since.subsec_nanos()))
}

/// The whole milliseconds in seconds and nanoseconds.
pub fn whole_millis(seconds: u64, nanos: u32) -> (millis: u128)
    ensures
        millis == seconds * 1000 + nanos / 1_000_000,
{
    seconds as u128 * 1000 + (nanos / 1_000_000) as u128
}

/// Milliseconds as they are written down; none is zero.
pub fn millis(since_epoch: Option<u128>) -> (millis: u64)
    ensures
        millis == (match since_epoch {
            Some(all) => (all as nat) % 0x1_0000_0000_0000_0000nat,
            None => 0nat,
        }),
{
    match since_epoch {
        Some(all) => (all % 0x1_0000_0000_0000_0000u128) as u64,
        None => 0,
    }
}

/// Milliseconds since the Unix epoch. Which they are is up to the clock.
pub fn now_ms() -> (now: u64) {
    match clock() {
        Some((seconds, nanos)) => millis(Some(whole_millis(seconds, nanos))),
        None => millis(None),
    }
}

pub open spec fn is_hex(c: char) -> bool {
    '0' <= c <= '9' || 'a' <= c <= 'f'
}

pub open spec fn is_simple_uuid(id: Seq<char>) -> bool {
    id.len() == 32 && forall|i: int| #![trigger id[i]] 0 <= i < id.len() ==> is_hex(id[i])
}

/// `uuid`'s `Uuid::now_v7` in simple form: thirty-two lower-case hexadecimal digits. Which they
/// are depends on the time and on chance.
#[verifier::external_body]
fn new_uuid() -> (id: String)
    ensures
        is_simple_uuid(id@),
{
    uuid::Uuid::now_v7().simple().to_string()
}

/// The id of a new agent, which is also the id of its sandbox.
pub fn new_agent_id() -> (id: String)
    ensures
        is_simple_uuid(id@),
        sandbox::is_id(id@),
{
    let id = new_uuid();
    proof {
        assert forall|i: int| #![trigger id@[i]] 0 <= i < id@.len() implies sandbox::may_be_in_id(
            id@[i],
        ) by {
            assert(is_hex(id@[i]));
        }
    }
    id
}

/// Where a command's full output goes.
pub fn new_log_path() -> (path: String)
    ensures
        exists|id: Seq<char>|
            #[trigger] is_simple_uuid(id) && path@ == "/tmp/bash-"@ + id + ".log"@,
{
    let id = new_uuid();
    let mut path = "/tmp/bash-".to_owned();
    path.append(id.as_str());
    path.append(".log");
    path
}

// ---- Inboxes ----

/// A message waiting in an agent's inbox.
#[derive(Clone, Debug, PartialEq, Eq)]
pub struct Mail {
    pub id: i64,
    pub from: String,
    pub text: String,
}

pub ghost struct MailView {
    pub id: i64,
    pub from: Seq<char>,
    pub text: Seq<char>,
}

impl View for Mail {
    type V = MailView;

    open spec fn view(&self) -> MailView {
        MailView { id: self.id, from: self.from@, text: self.text@ }
    }
}

pub open spec fn mail_views(mail: Seq<Mail>) -> Seq<MailView> {
    mail.map_values(|one: Mail| one@)
}

/// Agents a restarted harness must wake: those mid-turn, and those with unheld mail.
pub fn is_unfinished(state: AgentState, held: bool, pending: usize) -> (unfinished: bool)
    ensures
        unfinished == (state == AgentState::Running || (!held && pending > 0)),
{
    state == AgentState::Running || (!held && pending > 0)
}

/// Whether mail answers a message to `from` that was queued at `after`.
pub open spec fn answers(mail: MailView, from: Seq<char>, after: i64) -> bool {
    mail.from == from && mail.id > after
}

/// The first mail that answers a message.
pub open spec fn first_answer(mail: Seq<MailView>, from: Seq<char>, after: i64, start: int) -> Option<
    MailView,
>
    decreases mail.len() - start,
{
    if start < 0 || start >= mail.len() {
        None
    } else if answers(mail[start], from, after) {
        Some(mail[start])
    } else {
        first_answer(mail, from, after, start + 1)
    }
}

/// Unread mail from `from` that came after `after`.
pub fn find_reply(pending: &Vec<Mail>, from: &str, after: i64) -> (reply: Option<Reply>)
    ensures
        match first_answer(mail_views(pending@), from@, after, 0) {
            Some(mail) => reply matches Some(found) && found.id == mail.id && found.text@
                == mail.text,
            None => reply is None,
        },
{
    let ghost all = mail_views(pending@);
    let mut i: usize = 0;
    while i < pending.len()
        invariant
            i <= pending@.len(),
            all == mail_views(pending@),
            first_answer(all, from@, after, 0) == first_answer(all, from@, after, i as int),
        decreases pending@.len() - i,
    {
        assert(all[i as int] == pending@[i as int]@);
        if same(pending[i].from.as_str(), from) && pending[i].id > after {
            return Some(Reply { id: pending[i].id, text: pending[i].text.clone() });
        }
        i += 1;
    }
    None
}

/// A reply came after the message it answers, from whom the message went to; of several, it is the
/// one that waits longest.
pub proof fn law_replies_come_later(mail: Seq<MailView>, from: Seq<char>, after: i64, start: int)
    requires
        0 <= start,
    ensures
        first_answer(mail, from, after, start) matches Some(found) ==> found.id > after
            && found.from == from && mail.contains(found) && exists|k: int|
            start <= k < mail.len() && found == #[trigger] mail[k] && forall|i: int|
                #![trigger mail[i]]
                start <= i < k ==> !(mail[i].from == from && mail[i].id > after),
        first_answer(mail, from, after, start) is None ==> forall|i: int| #![trigger mail[i]]
            start <= i < mail.len() ==> !(mail[i].from == from && mail[i].id > after),
    decreases mail.len() - start,
{
    if start < mail.len() {
        if answers(mail[start], from, after) {
            assert(mail.contains(mail[start]));
            assert(mail[start] == first_answer(mail, from, after, start)->0);
        } else {
            law_replies_come_later(mail, from, after, start + 1);
        }
    }
}

// ---- Transcripts ----

/// Where an agent's transcript is.
pub fn transcript_path(transcripts: &str, agent: &str) -> (path: String)
    ensures
        path@ == paths::joined(paths::joined(transcripts@, agent@), "transcript.jsonl"@),
{
    let dir = join(transcripts, agent);
    join(dir.as_str(), "transcript.jsonl")
}

/// The lines of a transcript, each of which a line feed ends. What follows the last line feed is
/// no line: its append was cut off.
pub open spec fn log_lines(bytes: Seq<u8>) -> Seq<Seq<u8>> {
    strings::split_on(bytes, 10u8).drop_last()
}

/// Lines as they are written: each with the line feed that ends it.
pub open spec fn written(lines: Seq<Seq<u8>>) -> Seq<u8>
    decreases lines.len(),
{
    if lines.len() == 0 {
        Seq::empty()
    } else {
        written(lines.drop_last()) + lines.last().push(10u8)
    }
}

/// Places of lines, one after the other, each before its line feed.
pub open spec fn are_line_places(places: Seq<(usize, usize)>, bytes: Seq<u8>) -> bool {
    &&& places.len() == log_lines(bytes).len()
    &&& forall|i: int| #![trigger places[i]]
        0 <= i < places.len() ==> {
            &&& places[i].0 <= places[i].1 < bytes.len()
            &&& bytes.subrange(places[i].0 as int, places[i].1 as int) == log_lines(bytes)[i]
            &&& places[i].0 == written(log_lines(bytes).take(i)).len()
        }
}

/// What is written for the first lines is what a text with these lines begins with.
proof fn lemma_written(bytes: Seq<u8>)
    ensures
        ({
            let pieces = strings::split_on(bytes, 10u8);
            &&& pieces.len() >= 1
            &&& bytes == written(pieces.drop_last()) + pieces.last()
        }),
    decreases bytes.len(),
{
    let pieces = strings::split_on(bytes, 10u8);
    if bytes.len() == 0 {
        assert(bytes =~= Seq::<u8>::empty());
        assert(pieces =~= seq![Seq::<u8>::empty()]);
        assert(pieces.drop_last() =~= Seq::<Seq<u8>>::empty());
        assert(bytes =~= written(pieces.drop_last()) + pieces.last());
    } else {
        let before = bytes.drop_last();
        let rest = strings::split_on(before, 10u8);
        lemma_written(before);
        assert(bytes =~= before.push(bytes.last()));
        if bytes.last() == 10 {
            assert(pieces.drop_last() =~= rest);
            assert(rest =~= rest.drop_last().push(rest.last()));
            assert(written(rest) == written(rest.drop_last()) + rest.last().push(10u8));
            assert(bytes =~= written(pieces.drop_last()) + pieces.last());
        } else {
            assert(pieces.drop_last() =~= rest.drop_last());
            assert(bytes =~= written(pieces.drop_last()) + pieces.last());
        }
    }
}

/// Where the lines of a transcript stand.
pub fn split_log(bytes: &Vec<u8>) -> (places: Vec<(usize, usize)>)
    ensures
        are_line_places(places@, bytes@),
{
    let mut places: Vec<(usize, usize)> = Vec::new();
    let mut start: usize = 0;
    let mut at: usize = 0;
    let length: usize = bytes.len();
    proof {
        let none = bytes@.take(0);
        assert(none =~= Seq::<u8>::empty());
        assert(strings::split_on(none, 10u8) =~= seq![Seq::<u8>::empty()]);
        assert(strings::split_on(none, 10u8).drop_last() =~= Seq::<Seq<u8>>::empty());
        assert(none.subrange(0, 0) =~= Seq::<u8>::empty());
    }
    while at < length
        invariant
            start <= at <= length == bytes@.len(),
            ({
                let pieces = strings::split_on(bytes@.take(at as int), 10u8);
                &&& pieces.len() == places@.len() + 1
                &&& pieces.last() == bytes@.subrange(start as int, at as int)
                &&& start == written(pieces.drop_last()).len()
                &&& forall|i: int| #![trigger places@[i]]
                    0 <= i < places@.len() ==> {
                        &&& places@[i].0 <= places@[i].1 < at
                        &&& bytes@.subrange(places@[i].0 as int, places@[i].1 as int) == pieces[i]
                        &&& places@[i].0 == written(pieces.take(i)).len()
                    }
            }),
        decreases length - at,
    {
        let ghost before = bytes@.take(at as int);
        let ghost after = bytes@.take(at + 1);
        let ghost pieces = strings::split_on(before, 10u8);
        let ghost now = strings::split_on(after, 10u8);
        let ghost held = places@;
        proof {
            assert(after.drop_last() =~= before);
            assert(after.last() == bytes@[at as int]);
        }
        if bytes[at] == 10 {
            places.push((start, at));
            proof {
                assert(now == pieces.push(Seq::<u8>::empty()));
                assert(now.drop_last() =~= pieces);
                assert(pieces =~= pieces.drop_last().push(pieces.last()));
                assert(written(pieces).len() == start + pieces.last().len() + 1);
                assert forall|i: int| #![trigger places@[i]] 0 <= i < places@.len() implies {
                    &&& places@[i].0 <= places@[i].1 < at + 1
                    &&& bytes@.subrange(places@[i].0 as int, places@[i].1 as int) == now[i]
                    &&& places@[i].0 == written(now.take(i)).len()
                } by {
                    assert(now.take(i) =~= pieces.take(i));
                    if i < held.len() {
                        assert(places@[i] == held[i]);
                        assert(now[i] == pieces[i]);
                    } else {
                        assert(now[i] == pieces.last());
                        assert(pieces.take(i) =~= pieces.drop_last());
                    }
                }
                assert(bytes@.subrange(at + 1, at + 1) =~= Seq::<u8>::empty());
            }
            start = at + 1;
        } else {
            proof {
                assert(now == pieces.drop_last().push(pieces.last().push(bytes@[at as int])));
                assert(now.drop_last() =~= pieces.drop_last());
                assert(bytes@.subrange(start as int, at + 1) =~= bytes@.subrange(
                    start as int,
                    at as int,
                ).push(bytes@[at as int]));
                assert forall|i: int| #![trigger places@[i]] 0 <= i < places@.len() implies {
                    &&& places@[i].0 <= places@[i].1 < at + 1
                    &&& bytes@.subrange(places@[i].0 as int, places@[i].1 as int) == now[i]
                    &&& places@[i].0 == written(now.take(i)).len()
                } by {
                    assert(now.take(i) =~= pieces.take(i));
                    assert(now[i] == pieces[i]);
                }
            }
        }
        at += 1;
    }
    proof {
        let pieces = strings::split_on(bytes@, 10u8);
        assert(bytes@.take(at as int) =~= bytes@);
        assert forall|i: int| #![trigger places@[i]] 0 <= i < places@.len() implies {
            &&& places@[i].0 <= places@[i].1 < bytes@.len()
            &&& bytes@.subrange(places@[i].0 as int, places@[i].1 as int) == log_lines(bytes@)[i]
            &&& places@[i].0 == written(log_lines(bytes@).take(i)).len()
        } by {
            assert(log_lines(bytes@).take(i) =~= pieces.take(i));
        }
    }
    places
}

/// How many bytes to keep of a transcript whose first `intact` lines are entries; none where all
/// of them are kept. A crash mid-append leaves a partial last line, which lacks at least its line
/// feed; it is dropped so the next append starts clean.
pub fn recover(bytes: &Vec<u8>, intact: usize) -> (keep: Option<usize>)
    requires
        intact <= log_lines(bytes@).len(),
    ensures
        ({
            let kept = written(log_lines(bytes@).take(intact as int)).len();
            match keep {
                Some(keep) => kept < bytes@.len() && keep == kept,
                None => kept == bytes@.len(),
            }
        }),
{
    let places = split_log(bytes);
    let ghost lines = log_lines(bytes@);
    proof {
        lemma_written(bytes@);
        lemma_written_prefix(lines, intact as int);
        assert(lines.take(0) =~= Seq::<Seq<u8>>::empty());
        if intact > 0 {
            let head = lines.take(intact as int);
            assert(head.drop_last() =~= lines.take(intact - 1));
            assert(head.last() == lines[intact - 1]);
            assert(places@[intact - 1].0 == written(lines.take(intact - 1)).len());
        }
    }
    let length: usize = bytes.len();
    let keep: usize = if intact == 0 {
        0
    } else {
        places[intact - 1].1 + 1
    };
    if keep < length {
        Some(keep)
    } else {
        None
    }
}

/// Fewer lines are the beginning of what more lines write.
proof fn lemma_written_prefix(lines: Seq<Seq<u8>>, count: int)
    requires
        0 <= count <= lines.len(),
    ensures
        written(lines.take(count)).len() <= written(lines).len(),
        written(lines).take(written(lines.take(count)).len() as int) == written(lines.take(count)),
    decreases lines.len(),
{
    if count == lines.len() {
        assert(lines.take(count) =~= lines);
        assert(written(lines).take(written(lines).len() as int) =~= written(lines));
    } else {
        let rest = lines.drop_last();
        lemma_written_prefix(rest, count);
        assert(rest.take(count) =~= lines.take(count));
        let head = written(lines.take(count));
        assert(written(lines).take(head.len() as int) =~= written(rest).take(head.len() as int));
    }
}

/// What lines write splits into these lines again.
proof fn lemma_split_written(lines: Seq<Seq<u8>>)
    requires
        forall|i: int| #![trigger lines[i]] 0 <= i < lines.len() ==> !lines[i].contains(10u8),
    ensures
        strings::split_on(written(lines), 10u8) == lines.push(Seq::empty()),
    decreases lines.len(),
{
    if lines.len() == 0 {
        assert(strings::split_on(written(lines), 10u8) =~= lines.push(Seq::empty()));
    } else {
        let rest = lines.drop_last();
        let last = lines.last();
        assert(lines[lines.len() - 1] == last);
        assert forall|i: int| #![trigger rest[i]] 0 <= i < rest.len() implies !rest[i].contains(
            10u8,
        ) by {
            assert(rest[i] == lines[i]);
        }
        lemma_split_written(rest);
        let head = written(rest);
        strings::lemma_split_after(head, last, 10u8);
        let before = head + last;
        let pieces = strings::split_on(before, 10u8);
        assert(rest.push(Seq::<u8>::empty()).drop_last() =~= rest);
        assert(Seq::<u8>::empty() + last =~= last);
        assert(pieces =~= lines) by {
            assert(pieces == rest.push(last));
            assert(rest.push(last) =~= lines);
        }
        let all = written(lines);
        assert(all =~= before.push(10u8));
        assert(all.drop_last() =~= before);
        assert(strings::split_on(all, 10u8) == pieces.push(Seq::empty()));
    }
}

/// What lines write is read as these lines, and whatever lacks a line feed behind them is not.
proof fn lemma_read_written(lines: Seq<Seq<u8>>, torn: Seq<u8>)
    requires
        forall|i: int| #![trigger lines[i]] 0 <= i < lines.len() ==> !lines[i].contains(10u8),
        !torn.contains(10u8),
    ensures
        log_lines(written(lines) + torn) == lines,
{
    lemma_split_written(lines);
    strings::lemma_split_after(written(lines), torn, 10u8);
    assert(lines.push(Seq::<u8>::empty()).drop_last() =~= lines);
    assert(log_lines(written(lines) + torn) =~= lines);
}

/// Dropping what follows the intact lines leaves exactly these, each ended, so that what is
/// appended next stands on a line of its own.
pub proof fn law_recovery_keeps_intact_lines(bytes: Seq<u8>, intact: int, next: Seq<u8>)
    requires
        0 <= intact <= log_lines(bytes).len(),
        !next.contains(10u8),
    ensures
        ({
            let lines = log_lines(bytes).take(intact);
            let kept = bytes.take(written(lines).len() as int);
            &&& written(lines).len() <= bytes.len()
            &&& kept == written(lines)
            &&& log_lines(kept) == lines
            &&& log_lines(kept + next.push(10u8)) == lines.push(next)
        }),
{
    let all = log_lines(bytes);
    let lines = all.take(intact);
    lemma_written(bytes);
    strings::lemma_split_has_no_separator(bytes, 10u8);
    lemma_written_prefix(all, intact);
    let kept = bytes.take(written(lines).len() as int);
    assert(kept =~= written(all).take(written(lines).len() as int));
    let pieces = strings::split_on(bytes, 10u8);
    assert forall|i: int| #![trigger lines[i]] 0 <= i < lines.len() implies !lines[i].contains(
        10u8,
    ) by {
        assert(lines[i] == pieces[i]);
    }
    let longer = lines.push(next);
    assert forall|i: int| #![trigger longer[i]] 0 <= i < longer.len() implies !longer[i].contains(
        10u8,
    ) by {
        if i < lines.len() {
            assert(longer[i] == lines[i]);
        }
    }
    let none = Seq::<u8>::empty();
    lemma_read_written(lines, none);
    lemma_read_written(longer, none);
    assert(written(lines) + none =~= kept);
    assert(longer.drop_last() =~= lines);
    assert(written(longer) + none =~= kept + next.push(10u8));
}

/// A crash in the middle of an append, which leaves part of a line without its line feed, loses
/// that line alone: the lines before it are read, and nothing but them is kept.
pub proof fn law_a_torn_append_is_dropped(lines: Seq<Seq<u8>>, torn: Seq<u8>)
    requires
        forall|i: int| #![trigger lines[i]] 0 <= i < lines.len() ==> !lines[i].contains(10u8),
        !torn.contains(10u8),
    ensures
        ({
            let bytes = written(lines) + torn;
            &&& log_lines(bytes) == lines
            &&& bytes.take(written(log_lines(bytes)).len() as int) == written(lines)
        }),
{
    let bytes = written(lines) + torn;
    lemma_read_written(lines, torn);
    assert(bytes.take(written(lines).len() as int) =~= written(lines));
}

/// An open transcript: its entries.
pub struct Transcript {
    pub entries: Vec<Entry>,
}

impl Transcript {
    pub fn new(entries: Vec<Entry>) -> (transcript: Self)
        ensures
            transcript.entries == entries,
    {
        Transcript { entries }
    }

    /// Appends an item at a time; returns the entry that is to be written down.
    pub fn append(&mut self, item: Item, event: Option<i64>, at: u64) -> (entry: Entry)
        ensures
            entry@ == (agent::EntryView {
                seq: old(self).entries@.len() as u64,
                at,
                event,
                item: item@,
            }),
            agent::entry_views(final(self).entries@) == agent::entry_views(
                old(self).entries@,
            ).push(entry@),
    {
        let entry = Entry { seq: self.entries.len() as u64, at, event, item };
        let copy = entry.copied();
        let ghost before = agent::entry_views(self.entries@);
        self.entries.push(entry);
        assert(agent::entry_views(self.entries@) =~= before.push(entry@));
        copy
    }
}

} // verus!
