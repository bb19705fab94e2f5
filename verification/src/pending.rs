//! The commands the engine holds for a future frame (MIDI press frames, a wait for a block job), and the
//! order they run in.

use vstd::prelude::*;

use crate::api::Command;
use crate::grid::Frame;

verus! {

/// Commands the engine holds at once.
pub const MAX_PENDING: usize = 64;

#[derive(Clone, Copy, Debug, PartialEq, Eq, Structural)]
pub struct Pending {
    pub frame: Frame,
    /// The order it was sent in.
    pub seq: u64,
    pub command: Command,
    /// Waiting for a block job: every command sent after it waits behind it, so presses keep their order.
    pub held: bool,
}

/// A held command for a later frame, sent at or before `seq`.
pub open spec fn holds_back(p: Option<Pending>, f: Frame, seq: u64) -> bool {
    p is Some && p->0.held && p->0.frame > f && p->0.seq <= seq
}

/// A held command sent at or before `seq` waits for a later frame.
pub open spec fn held_back(table: Seq<Option<Pending>>, f: Frame, seq: u64) -> bool {
    exists|k: int| 0 <= k < table.len() && holds_back(#[trigger] table[k], f, seq)
}

/// Slot `k` holds a command that may run at `f`.
pub open spec fn may_run(table: Seq<Option<Pending>>, f: Frame, k: int) -> bool {
    &&& 0 <= k < table.len()
    &&& table[k] is Some
    &&& table[k]->0.frame <= f
    &&& !held_back(table, f, table[k]->0.seq) || table[k]->0.command.never_waits()
}

/// Slot `j` was sent before slot `k`.
pub open spec fn sent_before(table: Seq<Option<Pending>>, j: int, k: int) -> bool {
    table[j]->0.seq < table[k]->0.seq || table[j]->0.seq == table[k]->0.seq && j <= k
}

/// Slot `k` is the first-sent command that may run at `f`.
pub open spec fn runs_next(table: Seq<Option<Pending>>, f: Frame, k: int) -> bool {
    &&& may_run(table, f, k)
    &&& forall|j: int| #[trigger] may_run(table, f, j) ==> sent_before(table, k, j)
}

/// The commands at or before `f`, among the first `n` slots.
pub open spec fn due_count(table: Seq<Option<Pending>>, f: Frame, n: int) -> nat
    decreases n,
{
    if n <= 0 {
        0
    } else {
        due_count(table, f, n - 1) + (if table[n - 1] is Some && table[n - 1]->0.frame <= f {
            1nat
        } else {
            0nat
        })
    }
}

/// The first free slot, the table's length when it is full.
pub open spec fn first_free(table: Seq<Option<Pending>>) -> int
    decreases table.len(),
{
    if table.len() == 0 || table[0] is None {
        0
    } else {
        1 + first_free(table.subrange(1, table.len() as int))
    }
}

/// A table with one more command, in its first free slot; the same table where there is none.
pub open spec fn with_pending(table: Seq<Option<Pending>>, p: Pending) -> Seq<Option<Pending>> {
    let k = first_free(table);
    if k < table.len() {
        table.update(k, Some(p))
    } else {
        table
    }
}

/// `f` is later than `after`, and `p` waits for it.
pub open spec fn waits_at(p: Option<Pending>, after: Frame, slots: bool, f: Frame) -> bool {
    p is Some && p->0.frame == f && f > after && (slots ==> p->0.command.for_slots())
}

/// The table of commands held.
pub struct Table {
    pub slots: Vec<Option<Pending>>,
    /// The commands sent so far.
    pub seq: u64,
    pub dropped: u64,
}

pub proof fn lemma_first_free(table: Seq<Option<Pending>>)
    ensures
        0 <= first_free(table) <= table.len(),
        first_free(table) < table.len() ==> table[first_free(table)] is None,
        forall|k: int| 0 <= k < first_free(table) ==> (#[trigger] table[k]) is Some,
    decreases table.len(),
{
    if table.len() > 0 && table[0] is Some {
        let rest = table.subrange(1, table.len() as int);
        lemma_first_free(rest);
        let n = first_free(rest);
        if n < rest.len() {
            assert(rest[n] == table[n + 1]);
        }
        assert forall|k: int| 0 <= k < 1 + n implies (#[trigger] table[k]) is Some by {
            if k > 0 {
                assert(rest[k - 1] == table[k]);
            }
        }
    }
}

/// One slot changed changes the count by its own.
proof fn lemma_count_update(table: Seq<Option<Pending>>, f: Frame, k: int, p: Option<Pending>, n: int)
    requires
        0 <= k < table.len(),
        0 <= n <= table.len(),
    ensures
        due_count(table.update(k, p), f, n) == due_count(table, f, n) + (if k < n && p is Some && p->0.frame <= f {
            1int
        } else {
            0int
        }) - (if k < n && table[k] is Some && table[k]->0.frame <= f {
            1int
        } else {
            0int
        }),
    decreases n,
{
    if n > 0 {
        lemma_count_update(table, f, k, p, n - 1);
    }
}

/// A command held where there is room is one more counted.
pub proof fn lemma_one_more(table: Seq<Option<Pending>>, after: Seq<Option<Pending>>, f: Frame)
    requires
        first_free(table) < table.len(),
        exists|p: Pending| p.frame <= f && after == #[trigger] with_pending(table, p),
    ensures
        after.len() == table.len(),
        due_count(after, f, table.len() as int) == due_count(table, f, table.len() as int) + 1,
{
    lemma_first_free(table);
    let p = choose|p: Pending| p.frame <= f && after == #[trigger] with_pending(table, p);
    lemma_count_update(table, f, first_free(table), Some(p), table.len() as int);
}

/// The count is at most the slots.
pub proof fn lemma_count_bound(table: Seq<Option<Pending>>, f: Frame, n: int)
    requires
        0 <= n <= table.len(),
    ensures
        due_count(table, f, n) <= n,
    decreases n,
{
    if n > 0 {
        lemma_count_bound(table, f, n - 1);
    }
}

/// A table that counts none has none that may run.
proof fn lemma_none_counted(table: Seq<Option<Pending>>, f: Frame, n: int, k: int)
    requires
        0 <= k < n <= table.len(),
        due_count(table, f, n) == 0,
    ensures
        !(table[k] is Some && table[k]->0.frame <= f),
    decreases n,
{
    if k < n - 1 {
        lemma_none_counted(table, f, n - 1, k);
    }
}

/// A command taken out to run leaves one fewer due, whether it comes back for a later frame or not.
pub proof fn lemma_one_fewer(table: Seq<Option<Pending>>, f: Frame, k: int, back: Option<Pending>)
    requires
        0 <= k < table.len(),
        table[k] is Some,
        table[k]->0.frame <= f,
        back matches Some(p) ==> p.frame > f,
    ensures
        ({
            let out = table.update(k, None);
            let after = match back {
                Some(p) => with_pending(out, p),
                None => out,
            };
            &&& after.len() == table.len()
            &&& due_count(after, f, table.len() as int) == due_count(table, f, table.len() as int) - 1
        }),
{
    let out = table.update(k, None);
    lemma_count_update(table, f, k, None, table.len() as int);
    if back is Some {
        lemma_first_free(out);
        let j = first_free(out);
        if j < out.len() {
            lemma_count_update(out, f, j, back, table.len() as int);
        }
    }
}

impl Table {
    pub open spec fn wf(&self) -> bool {
        self.slots@.len() == MAX_PENDING
    }

    pub fn new() -> (table: Table)
        ensures
            table.wf(),
            forall|k: int| 0 <= k < MAX_PENDING ==> (#[trigger] table.slots@[k]) is None,
            table.seq == 0,
            table.dropped == 0,
    {
        let mut slots: Vec<Option<Pending>> = Vec::new();
        let mut k: usize = 0;
        while k < MAX_PENDING
            invariant
                k <= MAX_PENDING,
                slots@.len() == k,
                forall|j: int| 0 <= j < k ==> (#[trigger] slots@[j]) is None,
            decreases MAX_PENDING - k,
        {
            slots.push(None);
            k = k + 1;
        }
        Table { slots, seq: 0, dropped: 0 }
    }

    /// A slot is free.
    pub fn has_room(&self) -> (r: bool)
        ensures
            r == (first_free(self.slots@) < self.slots@.len()),
    {
        proof {
            lemma_first_free(self.slots@);
        }
        let mut k: usize = 0;
        while k < self.slots.len()
            invariant
                k <= self.slots@.len(),
                0 <= first_free(self.slots@) <= self.slots@.len(),
                first_free(self.slots@) < self.slots@.len() ==> self.slots@[first_free(self.slots@)] is None,
                forall|j: int| 0 <= j < first_free(self.slots@) ==> (#[trigger] self.slots@[j]) is Some,
                forall|j: int| 0 <= j < k ==> (#[trigger] self.slots@[j]) is Some,
            decreases self.slots@.len() - k,
        {
            if self.slots[k].is_none() {
                return true;
            }
            k = k + 1;
        }
        false
    }

    /// Put a command into the first free slot; a full table drops it and counts it.
    pub fn insert(&mut self, p: Pending)
        ensures
            final(self).slots@ == with_pending(old(self).slots@, p),
            final(self).slots@.len() == old(self).slots@.len(),
            final(self).seq == old(self).seq,
            final(self).dropped == (if first_free(old(self).slots@) < old(self).slots@.len() {
                old(self).dropped
            } else {
                old(self).dropped.wrapping_add(1)
            }),
    {
        proof {
            lemma_first_free(self.slots@);
        }
        let mut k: usize = 0;
        assert(self.slots@.subrange(0, self.slots@.len() as int) =~= self.slots@);
        while k < self.slots.len()
            invariant
                k <= self.slots@.len(),
                *self == *old(self),
                first_free(self.slots@) == k + first_free(self.slots@.subrange(k as int, self.slots@.len() as int)),
            decreases self.slots@.len() - k,
        {
            let ghost rest = self.slots@.subrange(k as int, self.slots@.len() as int);
            assert(rest[0] == self.slots@[k as int]);
            if self.slots[k].is_none() {
                assert(first_free(rest) == 0);
                self.slots[k] = Some(p);
                return;
            }
            assert(rest.subrange(1, rest.len() as int) =~= self.slots@.subrange(k + 1, self.slots@.len() as int));
            k = k + 1;
        }
        assert(first_free(self.slots@.subrange(k as int, self.slots@.len() as int)) == 0);
        self.dropped = self.dropped.wrapping_add(1);
    }

    /// Hold a command for a frame, as the one sent last.
    pub fn hold(&mut self, frame: Frame, command: Command)
        requires
            old(self).wf(),
        ensures
            final(self).wf(),
            final(self).seq == old(self).seq.wrapping_add(1),
            final(self).slots@ == with_pending(
                old(self).slots@,
                Pending { frame, seq: final(self).seq, command, held: false },
            ),
            first_free(old(self).slots@) < MAX_PENDING ==> final(self).dropped == old(self).dropped,
    {
        self.seq = self.seq.wrapping_add(1);
        self.insert(Pending { frame, seq: self.seq, command, held: false });
    }

    /// True while a command waits for a block job.
    pub fn holding(&self) -> (r: bool)
        ensures
            r <==> exists|k: int| 0 <= k < self.slots@.len() && (#[trigger] self.slots@[k]) is Some && self.slots@[k]->0.held,
    {
        let mut k: usize = 0;
        while k < self.slots.len()
            invariant
                k <= self.slots@.len(),
                forall|j: int| 0 <= j < k ==> !((#[trigger] self.slots@[j]) is Some && self.slots@[j]->0.held),
            decreases self.slots@.len() - k,
        {
            match self.slots[k] {
                Some(p) => {
                    if p.held {
                        assert(self.slots@[k as int] is Some && self.slots@[k as int]->0.held);
                        return true;
                    }
                },
                None => {},
            }
            k = k + 1;
        }
        false
    }

    fn is_held_back(&self, f: Frame, seq: u64) -> (r: bool)
        ensures
            r == held_back(self.slots@, f, seq),
    {
        let mut k: usize = 0;
        while k < self.slots.len()
            invariant
                k <= self.slots@.len(),
                forall|j: int| 0 <= j < k ==> !holds_back(#[trigger] self.slots@[j], f, seq),
            decreases self.slots@.len() - k,
        {
            match self.slots[k] {
                Some(p) => {
                    if p.held && p.frame > f && p.seq <= seq {
                        assert(holds_back(self.slots@[k as int], f, seq));
                        return true;
                    }
                },
                None => {},
            }
            k = k + 1;
        }
        false
    }

    /// The first-sent command due at or before `f`, unless an earlier-sent one waits for a block job: then
    /// it waits behind that one. Due commands run in the order they were sent. A command for the
    /// instruments, the plugin slots or the input sends never waits behind the looper: it touches nothing
    /// a block job moves, and a note must sound when it is played, an echo when it is switched on.
    pub fn due(&self, f: Frame) -> (k: Option<usize>)
        ensures
            k matches Some(k) ==> runs_next(self.slots@, f, k as int),
            k is None ==> forall|j: int| !(#[trigger] may_run(self.slots@, f, j)),
    {
        let mut best: Option<usize> = None;
        let mut k: usize = 0;
        while k < self.slots.len()
            invariant
                k <= self.slots@.len(),
                best matches Some(b) ==> b < k && may_run(self.slots@, f, b as int) && forall|j: int|
                    0 <= j < k && #[trigger] may_run(self.slots@, f, j) ==> sent_before(self.slots@, b as int, j),
                best is None ==> forall|j: int| 0 <= j < k ==> !(#[trigger] may_run(self.slots@, f, j)),
            decreases self.slots@.len() - k,
        {
            match self.slots[k] {
                Some(p) => {
                    if p.frame <= f && (p.command.is_instrument() || p.command.reaches_slots() || p.command.is_input_send() || !self.is_held_back(f, p.seq)) {
                        assert(may_run(self.slots@, f, k as int));
                        best = match best {
                            Some(b) => {
                                let first: u64 = match self.slots[b] {
                                    Some(q) => q.seq,
                                    None => 0,
                                };
                                if first <= p.seq {
                                    Some(b)
                                } else {
                                    Some(k)
                                }
                            },
                            None => Some(k),
                        };
                    }
                },
                None => {},
            }
            k = k + 1;
        }
        assert forall|j: int| #[trigger] may_run(self.slots@, f, j) implies 0 <= j < k by {
        }
        best
    }

    /// The next frame after `f` a command is stamped for (a command already due but waiting behind a held
    /// one is not a boundary; the held one's frame is).
    pub fn first_pending(&self, f: Frame) -> (at: Option<Frame>)
        ensures
            at matches Some(a) ==> exists|k: int|
                0 <= k < self.slots@.len() && waits_at(#[trigger] self.slots@[k], f, false, a),
            forall|k: int, g: Frame|
                0 <= k < self.slots@.len() && #[trigger] waits_at(self.slots@[k], f, false, g) ==> at is Some && at->0
                    <= g,
    {
        self.next_after(f, false)
    }

    /// The next frame after `f` a command the plugin slots hear is stamped for: where their render stops.
    pub fn first_slot_pending(&self, f: Frame) -> (at: Option<Frame>)
        ensures
            at matches Some(a) ==> exists|k: int|
                0 <= k < self.slots@.len() && waits_at(#[trigger] self.slots@[k], f, true, a),
            forall|k: int, g: Frame|
                0 <= k < self.slots@.len() && #[trigger] waits_at(self.slots@[k], f, true, g) ==> at is Some && at->0
                    <= g,
    {
        self.next_after(f, true)
    }

    fn next_after(&self, f: Frame, slots: bool) -> (at: Option<Frame>)
        ensures
            at matches Some(a) ==> exists|k: int|
                0 <= k < self.slots@.len() && waits_at(#[trigger] self.slots@[k], f, slots, a),
            forall|k: int, g: Frame|
                0 <= k < self.slots@.len() && #[trigger] waits_at(self.slots@[k], f, slots, g) ==> at is Some && at->0
                    <= g,
    {
        let mut at: Option<Frame> = None;
        let mut k: usize = 0;
        while k < self.slots.len()
            invariant
                k <= self.slots@.len(),
                at matches Some(a) ==> exists|j: int|
                    0 <= j < k && waits_at(#[trigger] self.slots@[j], f, slots, a),
                forall|j: int, g: Frame|
                    0 <= j < k && #[trigger] waits_at(self.slots@[j], f, slots, g) ==> at is Some && at->0 <= g,
            decreases self.slots@.len() - k,
        {
            match self.slots[k] {
                Some(p) => {
                    if p.frame > f && (!slots || p.command.reaches_slots()) {
                        assert(waits_at(self.slots@[k as int], f, slots, p.frame));
                        at = match at {
                            Some(a) => if a <= p.frame {
                                Some(a)
                            } else {
                                Some(p.frame)
                            },
                            None => Some(p.frame),
                        };
                    }
                },
                None => {},
            }
            k = k + 1;
        }
        at
    }

    /// A command that never waits (the instruments', the slots', the input sends') runs on its frame
    /// whatever is held.
    pub proof fn law_a_note_never_waits_on_the_looper(table: Seq<Option<Pending>>, f: Frame, k: int)
        requires
            0 <= k < table.len(),
            table[k] is Some,
            table[k]->0.frame <= f,
            table[k]->0.command.never_waits(),
        ensures
            may_run(table, f, k),
    {
    }

    /// A looper command sent after one that waits for a block job waits behind it.
    pub proof fn law_presses_keep_their_order(table: Seq<Option<Pending>>, f: Frame, j: int, k: int)
        requires
            0 <= j < table.len(),
            0 <= k < table.len(),
            table[j] is Some,
            table[k] is Some,
            table[j]->0.held,
            table[j]->0.frame > f,
            table[j]->0.seq <= table[k]->0.seq,
            !table[k]->0.command.never_waits(),
        ensures
            !may_run(table, f, k),
    {
        assert(holds_back(table[j], f, table[k]->0.seq));
    }

    /// A command held where there is room is in the table: late, never dropped.
    pub proof fn law_a_command_held_is_not_lost(table: Seq<Option<Pending>>, p: Pending)
        requires
            first_free(table) < table.len(),
        ensures
            with_pending(table, p).contains(Some(p)),
            forall|k: int|
                0 <= k < table.len() && (#[trigger] table[k]) is Some ==> with_pending(table, p)[k] == table[k],
    {
        lemma_first_free(table);
        let k = first_free(table);
        assert(with_pending(table, p)[k] == Some(p));
    }
}

} // verus!
