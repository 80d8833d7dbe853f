//! Paces one account's model calls. A provider's rate limit belongs to the account, so every
//! agent calling through it shares one gate.
//!
//! Calls take a slot for their whole duration and wait for one in the order they came. The
//! number of slots adapts to what the account sustains: a rate limit halves it and pauses every
//! call until the provider's retry time, and each successful call adds a fraction of a slot,
//! about one per round of successes.

use vstd::prelude::*;

verus! {

/// Why a call is held up.
#[derive(Clone, Copy, Debug, PartialEq, Eq, Structural)]
pub enum Hold {
    /// Every slot is taken.
    Queued,
    /// Every call waits, until this time in milliseconds since the Unix epoch.
    RateLimited { until: u64 },
}

// ---- Slots ----

/// How many calls may run at once.
#[derive(Clone, Copy, Debug, PartialEq, Eq, Structural)]
pub struct RateGate {
    /// Slots that calls may hold.
    capacity: usize,
    /// Slots held by calls beyond `capacity` since a rate limit; they are retired when released.
    debt: usize,
    max: usize,
}

pub open spec fn smaller(a: int, b: int) -> int {
    if a <= b {
        a
    } else {
        b
    }
}

pub open spec fn larger(a: int, b: int) -> int {
    if a >= b {
        a
    } else {
        b
    }
}

/// Half of the slots, but one at least.
pub open spec fn halved(capacity: nat) -> nat {
    larger(capacity as int / 2, 1) as nat
}

/// A rate limit takes half of the slots, and leaves one at least.
pub proof fn law_half_of_the_slots_go(capacity: nat)
    requires
        capacity > 0,
    ensures
        halved(capacity) >= 1,
        capacity > 1 ==> capacity - 1 <= 2 * halved(capacity) <= capacity,
        capacity == 1 ==> halved(capacity) == 1,
{
}

impl RateGate {
    pub closed spec fn capacity(self) -> nat {
        self.capacity as nat
    }

    pub closed spec fn debt(self) -> nat {
        self.debt as nat
    }

    pub closed spec fn max(self) -> nat {
        self.max as nat
    }

    /// There is always a slot, and never are there more than `max`, retired ones included.
    pub open spec fn well_formed(self) -> bool {
        1 <= self.capacity() && self.capacity() + self.debt() <= self.max() <= usize::MAX
    }

    pub fn new(initial: usize, max: usize) -> (slots: Self)
        ensures
            slots.well_formed(),
            slots.max() == larger(max as int, 1),
            slots.capacity() == smaller(larger(initial as int, 1), slots.max() as int),
            slots.debt() == 0,
    {
        let max: usize = if max >= 1 {
            max
        } else {
            1
        };
        let capacity: usize = if initial < 1 {
            1
        } else if initial > max {
            max
        } else {
            initial
        };
        Self { capacity, debt: 0, max }
    }

    /// How many calls may run at once.
    pub fn slots(&self) -> (capacity: usize)
        ensures
            capacity == self.capacity(),
    {
        self.capacity
    }

    /// How many calls may ever run at once.
    pub fn limit(&self) -> (max: usize)
        ensures
            max == self.max(),
    {
        self.max
    }

    /// The account now sustains `allowed` calls. Returns the permits to add: slots in debt are
    /// taken over by new ones.
    pub fn succeeded(&mut self, allowed: usize) -> (added: usize)
        requires
            old(self).well_formed(),
        ensures
            final(self).well_formed(),
            final(self).max() == old(self).max(),
            final(self).capacity() == larger(
                old(self).capacity() as int,
                smaller(allowed as int, old(self).max() as int),
            ),
            final(self).debt() == larger(
                old(self).debt() - (final(self).capacity() - old(self).capacity()),
                0,
            ),
            final(self).capacity() + final(self).debt() == old(self).capacity() + old(self).debt()
                + added,
    {
        let ghost before = *self;
        let target: usize = if allowed > self.max {
            self.max
        } else {
            allowed
        };
        let mut added: usize = 0;
        while self.capacity < target
            invariant
                self.well_formed(),
                target <= self.max,
                self.max == before.max,
                before.capacity <= self.capacity,
                self.capacity <= target || self.capacity == before.capacity,
                self.debt == larger(before.debt - (self.capacity - before.capacity), 0),
                self.capacity + self.debt == before.capacity + before.debt + added,
            decreases target - self.capacity,
        {
            if self.debt > 0 {
                self.debt -= 1;
            } else {
                added += 1;
            }
            self.capacity += 1;
        }
        added
    }

    /// The provider rate-limited a call: half of the slots go. Returns how many.
    pub fn rate_limited(&mut self) -> (excess: usize)
        requires
            old(self).well_formed(),
        ensures
            final(self).max() == old(self).max(),
            final(self).capacity() == halved(old(self).capacity()),
            final(self).debt() == old(self).debt() + excess,
            excess == old(self).capacity() - final(self).capacity(),
            final(self).well_formed(),
    {
        let target: usize = if self.capacity / 2 >= 1 {
            self.capacity / 2
        } else {
            1
        };
        let excess: usize = self.capacity - target;
        self.capacity = target;
        self.debt = self.debt + excess;
        excess
    }

    /// Free slots among those in debt were retired at once.
    pub fn retired(&mut self, free: usize)
        requires
            old(self).well_formed(),
            free <= old(self).debt(),
        ensures
            final(self).well_formed(),
            final(self).max() == old(self).max(),
            final(self).capacity() == old(self).capacity(),
            final(self).debt() == old(self).debt() - free,
    {
        self.debt = self.debt - free;
    }

    /// A call released its slot. Returns whether that slot is to be retired.
    pub fn released(&mut self) -> (retire: bool)
        requires
            old(self).well_formed(),
        ensures
            final(self).well_formed(),
            final(self).max() == old(self).max(),
            final(self).capacity() == old(self).capacity(),
            retire == (old(self).debt() > 0),
            final(self).debt() == larger(old(self).debt() - 1, 0),
    {
        if self.debt > 0 {
            self.debt -= 1;
            true
        } else {
            false
        }
    }
}

// ---- Calls and slots together ----

/// Slots as calls see them: `free` ones, and `held` ones that calls hold.
pub ghost struct Pool {
    pub free: nat,
    pub held: nat,
}

impl Pool {
    /// Every slot there is, is one that calls may hold or one in debt.
    pub open spec fn accounts_for(self, slots: RateGate) -> bool {
        self.free + self.held == slots.capacity() + slots.debt()
    }

    pub open spec fn taken(self) -> Pool {
        Pool { free: (self.free - 1) as nat, held: self.held + 1 }
    }

    pub open spec fn given_back(self, retire: bool) -> Pool {
        Pool {
            free: if retire {
                self.free
            } else {
                self.free + 1
            },
            held: (self.held - 1) as nat,
        }
    }

    pub open spec fn grown(self, added: nat) -> Pool {
        Pool { free: self.free + added, held: self.held }
    }

    pub open spec fn shrunk(self, retired: nat) -> Pool {
        Pool { free: (self.free - retired) as nat, held: self.held }
    }
}

/// Never do more calls run at once than the limit says, and no more than its slots once
/// nothing is in debt.
pub proof fn law_calls_are_bounded(pool: Pool, slots: RateGate)
    requires
        slots.well_formed(),
        pool.accounts_for(slots),
    ensures
        pool.held <= slots.max(),
        slots.debt() == 0 ==> pool.held <= slots.capacity(),
{
}

/// Taking a slot keeps the account.
pub proof fn law_taking_keeps_the_account(pool: Pool, slots: RateGate)
    requires
        pool.accounts_for(slots),
        pool.free > 0,
    ensures
        pool.taken().accounts_for(slots),
{
}

/// Giving a slot back keeps the account, where a slot in debt is retired.
pub proof fn law_releasing_keeps_the_account(pool: Pool, before: RateGate, after: RateGate)
    requires
        pool.accounts_for(before),
        pool.held > 0,
        after.capacity() == before.capacity(),
        after.debt() == larger(before.debt() - 1, 0),
    ensures
        pool.given_back(before.debt() > 0).accounts_for(after),
{
}

/// A success keeps the account, where the permits it asks for are added.
pub proof fn law_success_keeps_the_account(pool: Pool, before: RateGate, after: RateGate, added: nat)
    requires
        pool.accounts_for(before),
        after.capacity() + after.debt() == before.capacity() + before.debt() + added,
    ensures
        pool.grown(added).accounts_for(after),
{
}

/// A rate limit keeps the account, where free slots among those that go are retired.
pub proof fn law_rate_limit_keeps_the_account(
    pool: Pool,
    before: RateGate,
    after: RateGate,
    retired: nat,
)
    requires
        pool.accounts_for(before),
        retired <= pool.free,
        after.capacity() + after.debt() + retired == before.capacity() + before.debt(),
    ensures
        pool.shrunk(retired).accounts_for(after),
{
}

// ---- Pauses ----

/// The pause that ends later.
pub fn later_pause(current: Option<u64>, until: u64) -> (pause: Option<u64>)
    ensures
        pause == Some(
            match current {
                Some(end) => if end < until {
                    until
                } else {
                    end
                },
                None => until,
            },
        ),
{
    match current {
        Some(end) => if end < until {
            Some(until)
        } else {
            Some(end)
        },
        None => Some(until),
    }
}

/// A pause that is not over.
pub fn active(pause: Option<u64>, now: u64) -> (active: Option<u64>)
    ensures
        active == (match pause {
            Some(until) => if until > now {
                Some(until)
            } else {
                None
            },
            None => None,
        }),
{
    match pause {
        Some(until) => if until > now {
            Some(until)
        } else {
            None
        },
        None => None,
    }
}

// ---- Waiting ----

/// What a call that asked for a slot does next.
#[derive(Clone, Copy, Debug, PartialEq, Eq, Structural)]
pub enum Wait {
    /// Wait for a slot, for a pause to begin or end.
    ForSlot,
    /// It has its slot: wait for the pause to end, or to change.
    ForPause,
    /// Go on.
    Over,
}

/// A call that waits for its slot and for any pause to end.
#[derive(Clone, Copy, Debug, PartialEq, Eq, Structural)]
pub struct Waiting {
    has_slot: bool,
    shown: Option<Hold>,
}

/// How a call is held up: it has a slot or not, and a pause goes on or not.
pub open spec fn hold_of(has_slot: bool, until: Option<u64>) -> Option<Hold> {
    match until {
        Some(until) => Some(Hold::RateLimited { until }),
        None => if has_slot {
            None
        } else {
            Some(Hold::Queued)
        },
    }
}

/// What a call does, from whether it has a slot and whether a pause goes on.
pub open spec fn wait_of(has_slot: bool, until: Option<u64>) -> Wait {
    if !has_slot {
        Wait::ForSlot
    } else if until is Some {
        Wait::ForPause
    } else {
        Wait::Over
    }
}

/// A call goes on exactly where it has a slot and no pause goes on. A pause is told wherever one goes
/// on, with its end; without one, that the call is queued, until it has its slot.
pub proof fn law_a_call_waits_for_its_slot_and_for_pauses(has_slot: bool, until: Option<u64>)
    ensures
        wait_of(has_slot, until) == Wait::Over <==> has_slot && until is None,
        wait_of(has_slot, until) == Wait::Over <==> hold_of(has_slot, until) is None,
        wait_of(has_slot, until) == Wait::ForSlot <==> !has_slot,
        until matches Some(end) ==> hold_of(has_slot, until) == Some(
            Hold::RateLimited { until: end },
        ),
        until is None && !has_slot ==> hold_of(has_slot, until) == Some(Hold::Queued),
{
}

impl Waiting {
    pub closed spec fn has_slot(self) -> bool {
        self.has_slot
    }

    /// What was reported last.
    pub closed spec fn shown(self) -> Option<Hold> {
        self.shown
    }

    pub fn new() -> (waiting: Self)
        ensures
            !waiting.has_slot(),
            waiting.shown() is None,
    {
        Self { has_slot: false, shown: None }
    }

    /// Looks at how things stand: whether the call was handed its slot, and until when a pause goes on.
    /// Returns what is to be reported, where something is, and what the call does next. A hold
    /// is reported as it begins, and `None` once the call goes on.
    pub fn look(&mut self, handed: bool, until: Option<u64>) -> (next: (Option<Option<Hold>>, Wait))
        ensures
            final(self).has_slot() == (old(self).has_slot() || handed),
            final(self).shown() == hold_of(final(self).has_slot(), until),
            next.0 == (if final(self).shown() == old(self).shown() {
                None
            } else {
                Some(final(self).shown())
            }),
            next.1 == wait_of(final(self).has_slot(), until),
    {
        if handed {
            self.has_slot = true;
        }
        let hold = match until {
            Some(until) => Some(Hold::RateLimited { until }),
            None => if self.has_slot {
                None
            } else {
                Some(Hold::Queued)
            },
        };
        let same = match (hold, self.shown) {
            (Some(a), Some(b)) => a == b,
            (None, None) => true,
            _ => false,
        };
        let report = if same {
            None
        } else {
            Some(hold)
        };
        self.shown = hold;
        let wait = if !self.has_slot {
            Wait::ForSlot
        } else if until.is_some() {
            Wait::ForPause
        } else {
            Wait::Over
        };
        (report, wait)
    }
}

/// One look at how things stand.
pub ghost struct Look {
    pub handed: bool,
    pub until: Option<u64>,
}

/// Whether a call was handed its slot in one of these looks.
pub open spec fn was_handed(looks: Seq<Look>) -> bool
    decreases looks.len(),
{
    looks.len() > 0 && (looks.last().handed || was_handed(looks.drop_last()))
}

/// What was reported last after these looks.
pub open spec fn shown_after(looks: Seq<Look>) -> Option<Hold> {
    if looks.len() == 0 {
        None
    } else {
        hold_of(was_handed(looks), looks.last().until)
    }
}

/// Everything that is reported in these looks.
pub open spec fn reports(looks: Seq<Look>) -> Seq<Option<Hold>>
    decreases looks.len(),
{
    if looks.len() == 0 {
        Seq::empty()
    } else {
        let before = reports(looks.drop_last());
        if shown_after(looks) == shown_after(looks.drop_last()) {
            before
        } else {
            before.push(shown_after(looks))
        }
    }
}

/// No hold is reported twice in a row, and what was reported last is how the call is held up.
pub proof fn law_reports_tell_changes(looks: Seq<Look>)
    ensures
        reports(looks).len() > 0 ==> reports(looks).last() == shown_after(looks),
        reports(looks).len() == 0 ==> shown_after(looks) is None,
        reports(looks).len() > 0 ==> reports(looks)[0] is Some,
        forall|i: int, j: int| #![trigger reports(looks)[i], reports(looks)[j]]
            0 <= i && j == i + 1 && j < reports(looks).len() ==> reports(looks)[i] != reports(
                looks,
            )[j],
    decreases looks.len(),
{
    if looks.len() > 0 {
        law_reports_tell_changes(looks.drop_last());
        let before = reports(looks.drop_last());
        let now = reports(looks);
        if before.len() > 0 {
            assert(before.last() == before[before.len() - 1]);
            assert(now[0] == before[0]);
        }
        assert forall|i: int, j: int| #![trigger now[i], now[j]]
            0 <= i && j == i + 1 && j < now.len() implies now[i] != now[j] by {
            assert(now[i] == before[i]);
            if j < before.len() {
                assert(now[j] == before[j]);
            }
        }
    }
}

/// A call that goes on has reported the end of whatever held it up; one that never waited has
/// reported nothing.
pub proof fn law_waits_are_reported_to_their_end(looks: Seq<Look>)
    requires
        looks.len() > 0,
        wait_of(was_handed(looks), looks.last().until) == Wait::Over,
    ensures
        reports(looks).len() == 0 || reports(looks).last() is None,
        looks.len() == 1 ==> reports(looks).len() == 0,
{
    law_reports_tell_changes(looks);
    if looks.len() == 1 {
        assert(looks.drop_last() =~= Seq::<Look>::empty());
        assert(reports(looks.drop_last()) =~= Seq::<Option<Hold>>::empty());
    }
}

/// Milliseconds in nanoseconds since the Unix epoch; zero before it.
pub fn unix_millis(nanos: Option<u128>) -> (millis: u64)
    ensures
        millis == (match nanos {
            Some(nanos) => ((nanos as nat) / 1_000_000nat) % 0x1_0000_0000_0000_0000nat,
            None => 0nat,
        }),
{
    match nanos {
        Some(nanos) => {
            let all: u128 = nanos / 1_000_000;
            (all % 0x1_0000_0000_0000_0000u128) as u64
        },
        None => 0,
    }
}

} // verus!
