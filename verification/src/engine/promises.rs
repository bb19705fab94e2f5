//! What the engine promises of its commands and its blocks: when a command runs, what it waits for, and how time is
//! cut.

use vstd::prelude::*;

use crate::api::{Command, TimedCommand};
use crate::deck::Applied;
use crate::engine::apply::{Sound, TimedSound};
use crate::engine::block::{alignment, all_held, held_again, held_for, quantum_end, Desk};
use crate::engine::Engine;
use crate::float::{Single, SINGLE_ONE};
use crate::grid::{Frame, LOOP_LIMIT};
use crate::pending;
use crate::pending::Pending;

verus! {

/// A command is held for the frame it names, and for the block's first where it names none or an earlier one.
pub proof fn law_a_command_is_held_for_its_frame(c: TimedCommand, start: Frame)
    ensures
        c.frame is None ==> held_for(c, start) == start,
        c.frame is Some && c.frame->0 >= start ==> held_for(c, start) == c.frame->0,
        c.frame is Some && c.frame->0 < start ==> held_for(c, start) == start,
{
}

/// The commands of a block are held in the order they came: one more, where there is room, is in the table with the
/// next number, for its frame, and does not wait for anything yet; the others stay where they are.
pub proof fn law_a_command_taken_is_held(d: Desk, taken: Seq<TimedCommand>, c: TimedCommand, start: Frame)
    ensures
        ({
            let before = all_held(d, taken, start);
            let after = all_held(d, taken.push(c), start);
            let room = exists|k: int| 0 <= k < before.slots.len() && (#[trigger] before.slots[k]) is None;
            let p = Pending { frame: held_for(c, start), seq: after.seq, command: c.command, held: false };
            &&& before.seq < u64::MAX ==> after.seq == before.seq + 1
            &&& after.slots.len() == before.slots.len()
            &&& room ==> after.slots.contains(Some(p))
            &&& forall|k: int|
                0 <= k < before.slots.len() && (#[trigger] before.slots[k]) is Some ==> after.slots[k] == before.slots[k]
            &&& !room ==> after.slots == before.slots
        }),
{
    let before = all_held(d, taken, start);
    let after = all_held(d, taken.push(c), start);
    assert(taken.push(c).drop_last() =~= taken);
    pending::lemma_first_free(before.slots);
    let k = pending::first_free(before.slots);
    let p = Pending { frame: held_for(c, start), seq: after.seq, command: c.command, held: false };
    if k < before.slots.len() {
        assert(after.slots[k] == Some(p));
    }
}

/// A command that has to wait is held again as it was, for the frame it waits for, the next one at the earliest, and
/// what was sent after it waits behind it; one that is done is not.
pub proof fn law_a_command_that_waits_comes_back(p: Pending, at: Frame, command: Command, f: Frame)
    requires
        f < i64::MAX,
    ensures
        held_again(p, Applied::Done, f) is None,
        held_again(p, Applied::WaitUntil(at), f) matches Some(q) && {
            &&& q.command == p.command
            &&& q.seq == p.seq
            &&& q.held
            &&& q.frame > f
            &&& q.frame >= at
            &&& q.frame == at || q.frame == f + 1
        },
        held_again(p, Applied::Held(at, command), f) matches Some(q) && {
            &&& q.command == command
            &&& q.seq == p.seq
            &&& q.held
            &&& q.frame > f
            &&& q.frame >= at
            &&& q.frame == at || q.frame == f + 1
        },
{
}

/// The command that runs next was sent first of those whose frame has come, that are not held up behind one that
/// waits.
pub proof fn law_the_first_sent_runs_first(table: Seq<Option<Pending>>, f: Frame, k: int, j: int)
    requires
        pending::runs_next(table, f, k),
        0 <= j < table.len(),
        table[j] is Some,
        table[j]->0.frame <= f,
        table[j]->0.command.never_waits() || forall|x: int|
            0 <= x < table.len() && (#[trigger] table[x]) is Some && table[x]->0.held && table[x]->0.frame > f
                ==> table[j]->0.seq < table[x]->0.seq,
    ensures
        table[k] is Some,
        table[k]->0.frame <= f,
        table[k]->0.seq <= table[j]->0.seq,
{
    assert(pending::may_run(table, f, j)) by {
        if !table[j]->0.command.never_waits() {
            assert(!pending::held_back(table, f, table[j]->0.seq));
        }
    }
}

/// Notes, slots and sends never wait for the looper; what the looper does waits its turn.
pub proof fn law_only_the_looper_waits(i: u8, key: u8, v: Single, on: bool, action: crate::api::Action)
    ensures
        Command::NoteOn(key, v).never_waits(),
        Command::NoteOff(key).never_waits(),
        Command::AllNotesOff.never_waits(),
        Command::SetSlotLive(i, on).never_waits(),
        Command::SetSlotGain(i, v).never_waits(),
        !Command::RecDub(i).never_waits(),
        !Command::PlayStop(i).never_waits(),
        !Command::Stop(i).never_waits(),
        !Command::Undo(i).never_waits(),
        !Command::Reverse(i).never_waits(),
        !Command::Copy(i).never_waits(),
        !Command::Clear(i).never_waits(),
        !Command::PlayAll.never_waits(),
        !Command::StopAll.never_waits(),
        !Command::ClearAll.never_waits(),
        !Command::Action(action).never_waits(),
        !Command::ActionOn(i, action).never_waits(),
        !Command::SetLoopEndStop(on).never_waits(),
        !Command::SetVolume(i, v).never_waits(),
{
}

/// The master's volume is as asked for from silence to one, its mute as asked for; no other command moves them, and
/// neither moves the looper.
pub proof fn law_the_master_is_set_as_asked(before: &Engine, after: &Engine, v: Single, on: bool)
    ensures
        after.applied(before, Command::SetMasterVolume(v)) ==> {
            &&& v.finite() && 0 <= v.rank() <= SINGLE_ONE ==> after.master_volume == v
            &&& v.finite() && SINGLE_ONE < v.rank() ==> after.master_volume.bits == SINGLE_ONE
            &&& !v.finite() || v.rank() < 0 ==> after.master_volume.bits == 0
            &&& after.master_muted == before.master_muted
            &&& after.world() == before.world()
            &&& after.sounds@ == before.sounds@
        },
        after.applied(before, Command::SetMasterMute(on)) ==> {
            &&& after.master_muted == on
            &&& after.master_volume == before.master_volume
            &&& after.world() == before.world()
            &&& after.sounds@ == before.sounds@
        },
{
    reveal(crate::deck::World::set);
}

/// What is asked of the built-in instruments and the sends is passed on as it was asked, on its frame; a command for
/// the looper asks nothing of them.
pub proof fn law_a_sound_is_passed_on_as_asked(before: &Engine, after: &Engine, command: Command)
    requires
        after.applied(before, command),
    ensures
        ({
            let asks = |s: Sound| after.sounds@ == before.sounds@.push(TimedSound { frame: before.cx.now, sound: s });
            &&& command matches Command::NoteOn(key, v) ==> asks(Sound::NoteOn(key, v))
            &&& command matches Command::NoteOff(key) ==> asks(Sound::NoteOff(key))
            &&& command matches Command::PitchBend(x) ==> asks(Sound::PitchBend(x))
            &&& command matches Command::Modulation(x) ==> asks(Sound::Modulation(x))
            &&& command is AllNotesOff ==> asks(Sound::AllNotesOff)
            &&& command matches Command::SetInputSend(send, on) ==> asks(Sound::Send(send, on))
            &&& command matches Command::SetInputSendParam(param, x) ==> asks(Sound::SendParam(param, x))
            &&& command.is_lane() || command.is_press() ==> after.sounds@ == before.sounds@
        }),
{
}

/// A take is aligned by the sum of the delays, as far as the looper keeps it.
pub proof fn law_an_alignment_is_the_sum_of_the_delays(align: int, lag: int, limiter: int)
    ensures
        align + lag + limiter <= LOOP_LIMIT ==> alignment(align, lag, limiter) == align + lag + limiter,
        align + lag + limiter > LOOP_LIMIT ==> alignment(align, lag, limiter) == LOOP_LIMIT,
{
}

/// A block counts the frames it delivers: the sound clock (the frame less what the device skipped) goes on by the
/// block's length, whatever was skipped before it; a gap the device reports is counted, and damages what it falls into.
pub proof fn law_a_block_counts_what_it_delivers(before: &Engine, after: &Engine, ctx: &crate::api::ProcessContext, frames: int)
    requires
        after.entered(before, ctx, frames),
        before.wf(),
        ctx.frame >= before.next_frame,
        crate::grid::near(ctx.frame as int),
        crate::grid::near(ctx.frame + frames),
        frames >= 0,
        before.started,
    ensures
        after.block == ctx.frame,
        after.next_frame == ctx.frame + frames,
        before.skipped + (ctx.frame - before.next_frame) <= i64::MAX ==> after.next_frame - after.skipped
            == before.next_frame - before.skipped + frames,
        ctx.xrun && before.xruns < u64::MAX ==> after.xruns == before.xruns + 1,
        !ctx.xrun ==> after.xruns == before.xruns && after.world() == before.world(),
        ctx.xrun ==> after.world() == before.world().gapped(ctx.frame),
        after.rack.cursor == ctx.frame,
        after.cx.now == ctx.frame,
{
}

/// A render quantum is 128 frames of those the device delivered, and every frame is in one.
pub proof fn law_quanta_are_even(f: int, skipped: int)
    ensures
        f < quantum_end(f, skipped) <= f + 128,
        (quantum_end(f, skipped) - skipped) % 128 == 0,
        forall|g: int| f <= g < quantum_end(f, skipped) ==> #[trigger] quantum_end(g, skipped) == quantum_end(f, skipped),
{
}

} // verus!
