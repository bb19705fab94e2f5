//! Where one block ends and the next begins: a seam without a gap, with nothing on the ring and the ports,
//! changes nothing, so a block may end anywhere.

use vstd::prelude::*;

use crate::api::{ProcessContext, SLOT_COUNT, TRACK_COUNT};
use crate::engine::block;
use crate::engine::laws;
use crate::engine::splits;
use crate::deck::Kind;
use crate::engine::{Engine, QUANTUM};
use crate::float::Single;
use crate::grid::Frame;
use crate::looper;
use crate::looper::audio;
use crate::rings;
use crate::slots;
use crate::slots::{Rack, SlotChange};

verus! {

/// A block that begins where the last one ended, with no input gap.
pub open spec fn seamless(before: &Engine, ctx: &ProcessContext) -> bool {
    &&& before.started
    &&& before.cx.now == before.next_frame
    &&& ctx.frame == before.next_frame
    &&& !ctx.xrun
}

/// The look at the command ring and one look at each slot's port found nothing, and no unit waited to be sent
/// back.
pub open spec fn nothing_came(before: &Engine, after: &Engine) -> bool {
    &&& rings::commands_polled(after.commands) == rings::commands_polled(before.commands).push(None)
    &&& forall|i: int|
        0 <= i < SLOT_COUNT ==> {
            &&& rings::parcels_polled((#[trigger] after.rack.slots@[i]).rx) == rings::parcels_polled(
                before.rack.slots@[i].rx,
            ).push(None)
            &&& before.rack.slots@[i].parked@[0] is None
            &&& before.rack.slots@[i].parked@[1] is None
        }
}

/// Serving two empty ports.
proof fn lemma_served_quietly(before: &Rack, after: &Rack, engaged: bool, was: Seq<SlotChange>, now: Seq<SlotChange>)
    requires
        after.serviced(before, engaged, true, was, now),
        before.slots@.len() == SLOT_COUNT,
        forall|i: int|
            0 <= i < SLOT_COUNT ==> {
                &&& rings::parcels_polled((#[trigger] after.slots@[i]).rx) == rings::parcels_polled(
                    before.slots@[i].rx,
                ).push(None)
                &&& before.slots@[i].parked@[0] is None
                &&& before.slots@[i].parked@[1] is None
            },
    ensures
        now == was,
        forall|i: int| 0 <= i < SLOT_COUNT ==> #[trigger] after.desk(i, now) == before.desk(i, was),
{
    let (mid, half) = choose|mid: Rack, half: Seq<SlotChange>|
        {
            &&& #[trigger] mid.slot_served(before, 0, engaged, true, was, half)
            &&& mid.same_but(before, 0)
            &&& after.slot_served(&mid, 1, engaged, true, half, now)
            &&& after.same_but(&mid, 1)
        };
    assert(after.slots@[0] == mid.slots@[0]);
    assert(mid.slots@[1] == before.slots@[1]);
    assert(rings::parcels_polled(after.slots@[0].rx) == rings::parcels_polled(before.slots@[0].rx).push(None));
    assert(rings::parcels_polled(after.slots@[1].rx) == rings::parcels_polled(before.slots@[1].rx).push(None));
    slots::law_an_empty_port_changes_nothing(
        before.desk(0, was),
        0,
        engaged,
        rings::parcels_polled(before.slots@[0].rx),
        mid.desk(0, half),
    );
    assert(mid.desk(1, half) == before.desk(1, was));
    slots::law_an_empty_port_changes_nothing(
        mid.desk(1, half),
        1,
        engaged,
        rings::parcels_polled(mid.slots@[1].rx),
        after.desk(1, now),
    );
    assert(after.desk(0, now) == mid.desk(0, half));
}

/// A block boundary is no event: a block opened where the last one ended, with nothing on the ring and the
/// ports, leaves the looper, the clock, the samples, the commands that wait and the slots as they were, and
/// with the same driver latency the alignment too.
pub proof fn law_a_block_boundary_changes_nothing(before: &Engine, after: &Engine, ctx: &ProcessContext, frames: int)
    requires
        before.wf(),
        after.opened(before, ctx, frames),
        seamless(before, ctx),
        nothing_came(before, after),
    ensures
        after.world() == before.world(),
        after.looper.pcm() == before.looper.pcm(),
        after.looper.told_as(&before.looper),
        after.table.slots@ == before.table.slots@,
        after.table.seq == before.table.seq,
        after.table.dropped == before.table.dropped,
        after.cx.now == before.cx.now,
        after.skipped == before.skipped,
        after.next_frame == (before.next_frame + frames) as Frame,
        after.changes@ == before.changes@,
        forall|i: int|
            0 <= i < SLOT_COUNT ==> #[trigger] after.rack.desk(i, after.changes@) == before.rack.desk(
                i,
                before.changes@,
            ),
        after.lag() == before.lag(),
        block::alignment(ctx.align_frames as int, before.lag(), before.config.limiter_latency as int)
            == before.cx.align ==> after.cx.align == before.cx.align,
{
    let (a, b) = choose|a: Engine, b: Engine|
        {
            &&& #[trigger] a.entered(before, ctx, frames)
            &&& #[trigger] b.drained(&a, ctx.frame)
            &&& after.aligned(&b, !before.started, ctx.align_frames as int)
        };
    let polls = choose|polls: Seq<Option<crate::api::TimedCommand>>| #[trigger] b.took(&a, ctx.frame, polls);
    let was = rings::commands_polled(before.commands);
    assert(was.push(None) == was + polls);
    assert(was.push(None).len() == was.len() + 1);
    assert(polls.len() == 1);
    assert(polls[0] == (was + polls)[was.len() as int]);
    assert(rings::came(polls).len() == 0) by {
        reveal_with_fuel(rings::came, 2);
        assert(polls.drop_last().len() == 0);
    }
    assert(b.desk() == a.desk());
    let first = !before.started;
    let r = choose|r: Rack|
        #![trigger r.serviced(&b.rack, first, true, b.changes@, after.changes@)]
        r.serviced(&b.rack, first, true, b.changes@, after.changes@) && after.rack == (Rack {
            cursor: b.block,
            ..r
        });
    assert forall|i: int| 0 <= i < SLOT_COUNT implies rings::parcels_polled((#[trigger] r.slots@[i]).rx)
        == rings::parcels_polled(b.rack.slots@[i].rx).push(None) && b.rack.slots@[i].parked@[0] is None
        && b.rack.slots@[i].parked@[1] is None by {
        assert(after.rack.slots@[i] == r.slots@[i]);
    }
    lemma_served_quietly(&b.rack, &r, first, b.changes@, after.changes@);
    assert forall|i: int| 0 <= i < SLOT_COUNT implies #[trigger] after.rack.desk(i, after.changes@)
        == before.rack.desk(i, before.changes@) by {
        assert(r.desk(i, after.changes@) == b.rack.desk(i, b.changes@));
    }
    assert(after.rack.desk(0, after.changes@) == before.rack.desk(0, before.changes@));
    assert(after.rack.desk(1, after.changes@) == before.rack.desk(1, before.changes@));
    assert(after.looper.pool == before.looper.pool);
}

/// A block may end anywhere in a chunk in which nothing happens: closed at the block's end and opened again
/// with the next block, it comes to the state and the jobs' samples it comes to without the boundary.
#[verifier::rlimit(40)]
pub proof fn law_a_block_may_end_inside_a_chunk(
    c: &Engine,
    d: &Engine,
    mid: Frame,
    next: Frame,
    half: &Engine,
    there: &Engine,
    ctx: &ProcessContext,
    frames: int,
    anew: &Engine,
    again: &Engine,
)
    requires
        d.wf(),
        d.published(c),
        d.quiet_until(next),
        d.cx.now < mid < next < i64::MAX,
        crate::grid::near(next as int),
        half.advanced(&(Engine { next_frame: mid, ..*d }), mid),
        there.wf(),
        there.chunk_closed(half, d.cx.now, mid, mid - d.cx.now),
        anew.wf(),
        anew.opened(there, ctx, frames),
        seamless(there, ctx),
        nothing_came(there, anew),
        again.chunk_opened(anew, next),
    ensures
        anew.skipped == d.skipped,
        again.world() == there.world().with_jobs_by(next),
        again.looper.pcm() == looper::pcm_advanced(
            there.looper.pcm(),
            looper::jobs_advanced(d.world().jobs, mid),
            next,
            d.world().jobs.len() as int,
        ),
        laws::same_state(
            again.world().captured(mid, next - mid),
            d.world().with_jobs_by(next).captured(d.cx.now, next - d.cx.now),
        ),
        again.looper.published@ == there.looper.published@,
        again.looper.published_transport == there.looper.published_transport,
{
    let f = d.cx.now;
    let w = d.world();
    assert(there.world() == w.with_jobs_by(mid).captured(f, mid - f));
    law_a_block_boundary_changes_nothing(there, anew, ctx, frames);
    w.lemma_on_the_way(f, f, mid - f, mid);
    assert forall|g: Frame| #[trigger] anew.world().scheduled(g) implies mid < g by {
        assert(w.scheduled(g));
    }
    splits::lemma_no_command_between(d.table.slots@, f, mid, next);
    assert(anew.looper.told(c.world()));
    assert forall|k: int| 0 <= k < TRACK_COUNT implies #[trigger] anew.world().info(k) == c.world().info(k) by {
        assert(anew.world().info(k) == w.info(k));
        assert(w.info(k) == c.world().info(k));
    }
    splits::lemma_opened_quietly(c.world(), anew, again, next);
    splits::lemma_inv_with_jobs(w, f, next);
    splits::lemma_states_meet(w, f, mid, next);
}

/// ... what is recorded over the boundary is what is recorded without it ...
pub proof fn law_a_boundary_leaves_the_same_samples<F: Fn(Single, Single) -> Single>(
    c: &Engine,
    d: &Engine,
    mid: Frame,
    next: Frame,
    half: &Engine,
    there: &Engine,
    ctx: &ProcessContext,
    frames: int,
    anew: &Engine,
    again: &Engine,
    mix: F,
    first: Seq<Single>,
    second: Seq<Single>,
    end: Seq<Seq<Single>>,
)
    requires
        d.wf(),
        d.published(c),
        d.quiet_until(next),
        d.cx.now < mid < next < i64::MAX,
        next - d.cx.now <= crate::grid::LOOP_LIMIT,
        crate::grid::near(next as int),
        half.advanced(&(Engine { next_frame: mid, ..*d }), mid),
        there.wf(),
        there.chunk_closed(half, d.cx.now, mid, mid - d.cx.now),
        anew.wf(),
        anew.opened(there, ctx, frames),
        seamless(there, ctx),
        nothing_came(there, anew),
        again.chunk_opened(anew, next),
        first.len() == mid - d.cx.now,
        second.len() == next - mid,
        audio::taped(mix, half.world(), d.cx.now, first, half.looper.pcm(), there.looper.pcm()),
        audio::taped(mix, again.world(), mid, second, again.looper.pcm(), end),
    ensures
        audio::taped(
            mix,
            d.world(),
            d.cx.now,
            first + second,
            looper::pcm_advanced(d.looper.pcm(), d.world().jobs, next, d.world().jobs.len() as int),
            end,
        ),
{
    let f = d.cx.now;
    let w = d.world();
    law_a_block_may_end_inside_a_chunk(c, d, mid, next, half, there, ctx, frames, anew, again);
    splits::lemma_pool_pooled(d);
    splits::lemma_pool_pooled(there);
    splits::lemma_taped_same_deck(mix, half.world(), w, f, first, half.looper.pcm(), there.looper.pcm());
    assert(again.world().deck == w.captured(f, first.len() as int).deck);
    splits::lemma_samples_meet(
        mix,
        w,
        f,
        mid,
        next,
        d.looper.pcm(),
        there.looper.pcm(),
        again.world(),
        end,
        first,
        second,
    );
}

/// ... and what every lane that sounds plays, before the boundary and after it, is what it plays without it.
pub proof fn law_a_boundary_sounds_the_same<F: Fn(Single, Single) -> Single>(
    c: &Engine,
    d: &Engine,
    mid: Frame,
    next: Frame,
    whole: &Engine,
    half: &Engine,
    there: &Engine,
    ctx: &ProcessContext,
    frames: int,
    anew: &Engine,
    again: &Engine,
    mix: F,
    first: Seq<Single>,
    i: int,
    f: int,
)
    requires
        d.wf(),
        d.published(c),
        d.quiet_until(next),
        d.cx.now < mid < next < i64::MAX,
        next - d.cx.now <= QUANTUM,
        crate::grid::near(next as int),
        whole.advanced(d, next),
        half.advanced(&(Engine { next_frame: mid, ..*d }), mid),
        there.wf(),
        there.chunk_closed(half, d.cx.now, mid, mid - d.cx.now),
        anew.wf(),
        anew.opened(there, ctx, frames),
        seamless(there, ctx),
        nothing_came(there, anew),
        again.chunk_opened(anew, next),
        first.len() == mid - d.cx.now,
        audio::taped(mix, half.world(), d.cx.now, first, half.looper.pcm(), there.looper.pcm()),
        d.world().deck.rec matches Some(r) ==> r.kind == Kind::Overdub ==> r.align + QUANTUM <= d.world().deck.master,
        0 <= i < TRACK_COUNT,
        d.world().sounding(i),
    ensures
        d.cx.now <= f < mid ==> half.looper.played(i, f) == whole.looper.played(i, f),
        mid <= f < next ==> again.looper.played(i, f) == whole.looper.played(i, f),
{
    let now = d.cx.now;
    let w = d.world();
    law_a_block_may_end_inside_a_chunk(c, d, mid, next, half, there, ctx, frames, anew, again);
    splits::lemma_pool_pooled(d);
    splits::lemma_pool_pooled(there);
    splits::lemma_taped_same_deck(mix, half.world(), w, now, first, half.looper.pcm(), there.looper.pcm());
    splits::lemma_sounds_meet(mix, w, now, mid, next, d.looper.pcm(), there.looper.pcm(), first, i, f);
    if w.deck.rec is Some {
        w.lemma_rec(now);
    }
    splits::lemma_capture_moves_no_head(w.with_jobs_by(mid), now, mid - now, i, f);
    assert(again.world().deck == there.world().deck);
    assert(half.looper.control.deck == w.deck);
    assert(whole.looper.control.deck == w.deck);
}

} // verus!
