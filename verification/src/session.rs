//! Saving and loading a session through the engine: a [`Snapshot`] copied out of the committed lanes a
//! budget per rendered frame, and a [`Load`] swapped into an all-EMPTY looper. Neither allocates, frees
//! or waits on the audio thread: the host hands over every buffer (a snapshot's destination; a load's
//! lane buffers, built off the audio thread) and takes each back, a load's with the engine's old lane
//! buffers in them, to free it.
//!
//! A snapshot is the committed loops as they stood on the frame it began (it waits for the looper's
//! block jobs first): an OVERDUBBING lane gives its loop as committed before the layer in flight (its
//! undo buffer), and every loop comes out in play order (a reversed lane's buffer read backwards). It
//! copies `SNAPSHOT_RATE` positions per rendered frame, so a write to a buffer it copies from (a new
//! overdub, a clear and a new take) can land meanwhile: it then answers [`SessionError::Changed`] and
//! the host tries again.
//!
//! A load applies at a block start into an all-EMPTY looper with no take in flight: each lane's buffer
//! is swapped for the host's, the tempo set and locked, the master grid anchored on that frame, and the
//! PLAYING lanes play loop position 0 there together; the lanes and the transport reach the feed at the
//! next publish, as a commit's do.

use vstd::prelude::*;

use crate::api::{LaneState, TRACK_COUNT};
use crate::control::Cx;
use crate::deck::BUFFER_COUNT;
use crate::float::Single;
use crate::grid::{Frame, LOOP_LIMIT};
use crate::grid;
use crate::looper::session;
use crate::looper::Looper;
use crate::rings;
use crate::rings::{parcel_ring, parcel_slots, send_parcel, take_parcel, Parcel};

verus! {

/// Loop positions a snapshot copies per rendered frame (as a block job moves).
pub const SNAPSHOT_RATE: Frame = 1024;

/// Why a session job did not complete.
#[derive(Clone, Copy, Debug, PartialEq, Eq)]
pub enum SessionError {
    /// A load needs every lane EMPTY and no take in flight.
    NotEmpty,
    /// A snapshot's destination holds fewer than this many samples: grow it and try again.
    TooSmall(usize),
    /// A buffer the snapshot copied from was written while it copied: try again.
    Changed,
    /// A load that does not fit the engine (its text says why).
    Invalid(&'static str),
}

pub open spec fn digit(d: int) -> char {
    seq!['0', '1', '2', '3', '4', '5', '6', '7', '8', '9'][d]
}

/// A number in decimal.
pub open spec fn decimal(n: int) -> Seq<char>
    decreases n,
{
    if n < 10 {
        seq![digit(n)]
    } else {
        decimal(n / 10).push(digit(n % 10))
    }
}

fn digit_text(d: usize) -> (text: &'static str)
    requires
        d < 10,
    ensures
        text@ == seq![digit(d as int)],
{
    proof {
        reveal_strlit("0");
        reveal_strlit("1");
        reveal_strlit("2");
        reveal_strlit("3");
        reveal_strlit("4");
        reveal_strlit("5");
        reveal_strlit("6");
        reveal_strlit("7");
        reveal_strlit("8");
        reveal_strlit("9");
    }
    let text: &'static str = match d {
        0 => "0",
        1 => "1",
        2 => "2",
        3 => "3",
        4 => "4",
        5 => "5",
        6 => "6",
        7 => "7",
        8 => "8",
        _ => "9",
    };
    assert(text@ =~= seq![digit(d as int)]);
    text
}

/// Put a number, in decimal, behind a text.
fn put_number(text: &mut String, n: usize)
    ensures
        final(text)@ == old(text)@ + decimal(n as int),
    decreases n,
{
    if n >= 10 {
        put_number(text, n / 10);
    }
    let ghost mid = text@;
    text.append(digit_text(n % 10));
    assert(text@ =~= old(text)@ + decimal(n as int));
}

impl SessionError {
    /// What the host shows.
    pub open spec fn message(self) -> Seq<char> {
        match self {
            SessionError::NotEmpty => "the looper is not empty: clear every track first"@,
            SessionError::TooSmall(need) => "the snapshot needs "@ + decimal(need as int) + " samples"@,
            SessionError::Changed => "the loops changed while the snapshot copied them"@,
            SessionError::Invalid(why) => why@,
        }
    }

    pub fn text(self) -> (text: String)
        ensures
            text@ == self.message(),
    {
        match self {
            SessionError::NotEmpty => "the looper is not empty: clear every track first".to_owned(),
            SessionError::TooSmall(need) => {
                let mut text: String = "the snapshot needs ".to_owned();
                put_number(&mut text, need);
                text.append(" samples");
                text
            },
            SessionError::Changed => "the loops changed while the snapshot copied them".to_owned(),
            SessionError::Invalid(why) => why.to_owned(),
        }
    }
}

/// A committed lane in a snapshot.
#[derive(Clone, Copy, Debug, PartialEq, Eq, Structural)]
pub struct SnapshotTrack {
    pub index: u8,
    pub state: LaneState,
    /// The lane plays its loop backwards: its PCM is in play order all the same.
    pub reversed: bool,
}

/// What a snapshot copies for one lane: which buffer, read which way, and the buffer's write count
/// when it began.
#[derive(Clone, Copy, Debug, PartialEq, Eq, Structural)]
pub struct Pin {
    pub buf: usize,
    pub backwards: bool,
    pub writes: u64,
}

pub struct Snapshot {
    /// The destination, allocated and written through by the host (its pages touched): the tracks'
    /// loops back to back, `master` samples each, in `tracks` order.
    pub pcm: Vec<Single>,
    pub rate: u32,
    pub master: Frame,
    pub bpm: u32,
    /// The committed lanes, ascending; `count` of them.
    pub tracks: [Option<SnapshotTrack>; TRACK_COUNT],
    pub count: usize,
    /// `None` while in flight.
    pub result: Option<Result<(), SessionError>>,
    pub started: bool,
    pub pins: [Option<Pin>; TRACK_COUNT],
    /// Samples copied so far, over all tracks.
    pub done: usize,
}

/// One lane of a load.
pub struct LoadTrack {
    pub index: u8,
    /// The lane's new buffer: exactly the looper's capacity long, the loop in its first `master`
    /// samples in buffer order (a reversed lane's play-order PCM reversed back). After the load it holds
    /// the engine's old buffer, for the host to free.
    pub buf: Vec<Single>,
    pub reversed: bool,
    /// PLAYING from the grid anchor; else STOPPED.
    pub playing: bool,
}

pub struct Load {
    pub bpm: u32,
    pub bars: Frame,
    pub master: Frame,
    pub tracks: Vec<LoadTrack>,
    /// `None` while in flight.
    pub result: Option<Result<(), SessionError>>,
}

pub enum SessionJob {
    Snapshot(Snapshot),
    Load(Load),
}

impl Snapshot {
    /// A snapshot into `pcm` (the host's buffer, its pages touched).
    pub fn new(pcm: Vec<Single>) -> (s: Snapshot)
        ensures
            s.pcm@ == pcm@,
            s.rate == 0,
            s.master == 0,
            s.bpm == 0,
            forall|k: int| 0 <= k < TRACK_COUNT ==> (#[trigger] s.tracks@[k]) is None,
            forall|k: int| 0 <= k < TRACK_COUNT ==> (#[trigger] s.pins@[k]) is None,
            s.count == 0,
            s.result is None,
            !s.started,
            s.done == 0,
    {
        Snapshot {
            pcm,
            rate: 0,
            master: 0,
            bpm: 0,
            tracks: [None, None, None, None, None],
            count: 0,
            result: None,
            started: false,
            pins: [None, None, None, None, None],
            done: 0,
        }
    }

    /// The samples of all its tracks.
    pub open spec fn total(&self) -> int {
        self.count * self.master
    }

    /// The buffer track `k` was pinned on, as it stood.
    pub open spec fn pinned(&self, past: Seq<Seq<Seq<Single>>>, k: int) -> Seq<Single> {
        past[self.pins@[k]->0.buf as int][self.pins@[k]->0.writes as int]
    }

    /// Sample `n` as it is to be: position `n mod master` of track `n / master`, in play order.
    pub open spec fn wanted(&self, past: Seq<Seq<Seq<Single>>>, n: int) -> Single {
        let k = n / (self.master as int);
        let p = n % (self.master as int);
        self.pinned(past, k)[if self.pins@[k]->0.backwards {
            self.master - 1 - p
        } else {
            p
        }]
    }

    /// Track `k` is pinned on a buffer of the pool, as it stood at a count that was sure.
    pub open spec fn held(&self, past: Seq<Seq<Seq<Single>>>, k: int) -> bool {
        &&& self.pins@[k] is Some
        &&& self.pins@[k]->0.buf < BUFFER_COUNT
        &&& self.pins@[k]->0.writes < u64::MAX ==> {
            &&& self.pins@[k]->0.writes < past[self.pins@[k]->0.buf as int].len()
            &&& self.pinned(past, k).len() >= self.master
        }
    }

    /// Every count was sure.
    pub open spec fn sure(&self) -> bool {
        forall|k: int| 0 <= k < self.count ==> (#[trigger] self.pins@[k])->0.writes < u64::MAX
    }

    /// What it has copied is what stood there when it began.
    pub open spec fn faithful(&self, past: Seq<Seq<Seq<Single>>>) -> bool {
        &&& self.count <= TRACK_COUNT
        &&& 0 <= self.master <= LOOP_LIMIT
        &&& self.count > 0 ==> self.master > 0
        &&& self.done <= self.total() <= self.pcm@.len()
        &&& forall|k: int| 0 <= k < self.count ==> #[trigger] self.held(past, k)
        &&& self.sure() ==> forall|n: int| 0 <= n < self.done ==> #[trigger] self.pcm@[n] == self.wanted(past, n)
    }

    /// Its result is no part of what it has copied.
    pub proof fn lemma_faithful_same(&self, before: &Snapshot, past: Seq<Seq<Seq<Single>>>)
        requires
            before.faithful(past),
            self.pcm == before.pcm,
            self.master == before.master,
            self.count == before.count,
            self.pins == before.pins,
            self.done == before.done,
        ensures
            self.faithful(past),
    {
        assert forall|k: int| 0 <= k < self.count implies #[trigger] self.held(past, k) by {
            assert(before.held(past, k));
        }
        if self.sure() {
            assert forall|k: int| 0 <= k < before.count implies (#[trigger] before.pins@[k])->0.writes < u64::MAX by {
                assert(self.pins@[k]->0.writes < u64::MAX);
            }
            assert forall|n: int| 0 <= n < self.done implies #[trigger] self.pcm@[n] == self.wanted(past, n) by {
                assert(before.pcm@[n] == before.wanted(past, n));
            }
        }
    }

    /// Writes since do not change what stood there.
    pub proof fn lemma_faithful_later(&self, before: Seq<Seq<Seq<Single>>>, after: Seq<Seq<Seq<Single>>>)
        requires
            self.faithful(before),
            forall|b: int| 0 <= b < BUFFER_COUNT ==> (#[trigger] before[b]).is_prefix_of(after[b]),
        ensures
            self.faithful(after),
            self.sure() ==> forall|n: int|
                0 <= n < self.total() ==> #[trigger] self.wanted(after, n) == self.wanted(before, n),
    {
        assert forall|k: int| 0 <= k < self.count implies #[trigger] self.held(after, k) && (self.pins@[k]->0.writes
            < u64::MAX ==> self.pinned(after, k) == self.pinned(before, k)) by {
            assert(self.held(before, k));
            let b = self.pins@[k]->0.buf as int;
            assert(before[b].is_prefix_of(after[b]));
        }
        if self.sure() {
            assert forall|n: int| 0 <= n < self.total() implies #[trigger] self.wanted(after, n) == self.wanted(
                before,
                n,
            ) by {
                lemma_track(n, self.master as int, self.count as int);
                let k = n / (self.master as int);
                assert(self.held(after, k));
                assert(self.pins@[k]->0.writes < u64::MAX);
            }
            assert forall|n: int| 0 <= n < self.done implies #[trigger] self.pcm@[n] == self.wanted(after, n) by {
                assert(self.pcm@[n] == self.wanted(before, n));
                assert(self.wanted(after, n) == self.wanted(before, n));
            }
        }
    }
}

/// Sample `n` of so many tracks is a position of one of them.
pub proof fn lemma_track(n: int, master: int, count: int)
    requires
        0 <= n < count * master,
        0 <= master,
        0 <= count,
    ensures
        master > 0,
        0 <= n / master < count,
        0 <= n % master < master,
{
    assert(master > 0) by (nonlinear_arith)
        requires
            0 <= n < count * master,
            0 <= master,
    ;
    vstd::arithmetic::div_mod::lemma_fundamental_div_mod(n, master);
    vstd::arithmetic::div_mod::lemma_mod_bound(n, master);
    let k = n / master;
    assert(0 <= k < count) by (nonlinear_arith)
        requires
            n == master * k + n % master,
            0 <= n % master < master,
            0 <= n < count * master,
    ;
}

// ── The ends ───────────────────────────────────────────────────────────────────────────────────────

/// A job as it comes in: a snapshot without a result not begun yet. A job that has a result is left alone.
fn renew(job: SessionJob) -> (r: SessionJob)
    ensures
        r == job.afresh(),
{
    match job {
        SessionJob::Snapshot(s) => if s.result.is_none() {
            SessionJob::Snapshot(Snapshot { started: false, ..s })
        } else {
            SessionJob::Snapshot(s)
        },
        SessionJob::Load(l) => SessionJob::Load(l),
    }
}

impl SessionJob {
    /// As it comes in: a snapshot without a result not begun yet. A job that has a result is left alone.
    pub open spec fn afresh(self) -> SessionJob {
        match self {
            SessionJob::Snapshot(s) if s.result is None => SessionJob::Snapshot(Snapshot { started: false, ..s }),
            _ => self,
        }
    }

    pub open spec fn outcome(&self) -> Option<Result<(), SessionError>> {
        match self {
            SessionJob::Snapshot(s) => s.result,
            SessionJob::Load(l) => l.result,
        }
    }

    fn done(&self) -> (r: bool)
        ensures
            r == (self.outcome() is Some),
    {
        match self {
            SessionJob::Snapshot(s) => s.result.is_some(),
            SessionJob::Load(l) => l.result.is_some(),
        }
    }
}

/// The host's end: one job at a time, handed over and taken back.
pub struct SessionPort {
    pub tx: rtrb::Producer<Parcel>,
    pub rx: rtrb::Consumer<Parcel>,
}

impl SessionPort {
    /// What it sends reaches the engine's end, and what that hands back reaches it.
    pub open spec fn joined(&self, end: &SessionEnd) -> bool {
        &&& rings::parcel_sink(self.tx) == rings::parcel_source(end.rx)
        &&& rings::parcel_sink(end.tx) == rings::parcel_source(self.rx)
    }

    /// Nothing was sent yet and nothing came back; the ring to the engine has room for one job.
    pub open spec fn fresh(&self) -> bool {
        &&& rings::parcels_offered(self.tx) == Seq::<(Parcel, bool)>::empty()
        &&& rings::parcel_room(self.tx) == 1
        &&& rings::parcels_polled(self.rx) == Seq::<Option<Parcel>>::empty()
    }

    /// Hand a job to the engine; it comes back on [`SessionPort::returned`] with its result. Gives it
    /// back when one is already on its way in.
    pub fn send(&mut self, job: SessionJob) -> (r: Result<(), SessionJob>)
        ensures
            final(self).rx == old(self).rx,
            rings::parcel_sink(final(self).tx) == rings::parcel_sink(old(self).tx),
            rings::parcels_offered(final(self).tx) == rings::parcels_offered(old(self).tx).push(
                (Parcel::Session(job), r is Ok),
            ),
            r matches Err(back) ==> back == job,
            rings::parcel_room(old(self).tx) > 0 ==> r is Ok && rings::parcel_room(final(self).tx)
                == rings::parcel_room(old(self).tx) - 1,
    {
        match send_parcel(&mut self.tx, Parcel::Session(job)) {
            Some(Parcel::Session(back)) => Err(back),
            _ => Ok(()),
        }
    }

    pub fn returned(&mut self) -> (job: Option<SessionJob>)
        ensures
            final(self).tx == old(self).tx,
            rings::looked(old(self).rx, final(self).rx),
            job == (match rings::latest(final(self).rx) {
                Some(Parcel::Session(j)) => Some(j),
                _ => None,
            }),
    {
        match take_parcel(&mut self.rx) {
            Some(Parcel::Session(job)) => Some(job),
            _ => None,
        }
    }
}

/// The engine's end: the job it holds, and the rings.
pub struct SessionEnd {
    pub rx: rtrb::Consumer<Parcel>,
    pub tx: rtrb::Producer<Parcel>,
    pub job: Option<SessionJob>,
}

/// A port and the engine's end of it.
pub fn channel() -> (ends: (SessionPort, SessionEnd))
    ensures
        ends.0.fresh(),
        ends.1.fresh(),
        ends.0.joined(&ends.1),
{
    let (in_tx, in_rx) = parcel_ring(1);
    let (back_tx, back_rx) = parcel_ring(1);
    (SessionPort { tx: in_tx, rx: back_rx }, SessionEnd { rx: in_rx, tx: back_tx, job: None })
}

/// A snapshot's share of so many frames: `SNAPSHOT_RATE` positions each, of one at least.
pub open spec fn share(frames: Frame) -> int {
    grid::min_int(SNAPSHOT_RATE * grid::max_int(frames as int, 1), usize::MAX as int)
}

fn share_of(frames: Frame) -> (n: usize)
    ensures
        n == share(frames),
{
    let f: Frame = if frames > 1 {
        frames
    } else {
        1
    };
    if f as u64 > usize::MAX as u64 / 1024 {
        usize::MAX
    } else {
        f as usize * 1024
    }
}

impl SessionEnd {
    /// No job, nothing came and nothing went back; the ring back has all its room.
    pub open spec fn fresh(&self) -> bool {
        &&& self.job is None
        &&& rings::parcels_polled(self.rx) == Seq::<Option<Parcel>>::empty()
        &&& rings::parcels_offered(self.tx) == Seq::<(Parcel, bool)>::empty()
        &&& rings::parcel_room(self.tx) == 1
    }

    /// A job held can always go back, and a snapshot in flight is faithful to what the pool has held.
    pub open spec fn wf(&self, past: Seq<Seq<Seq<Single>>>, capacity: int) -> bool {
        &&& self.job is Some ==> rings::parcel_room(self.tx) >= 1
        &&& (self.job matches Some(SessionJob::Snapshot(s)) ==> s.started ==> s.result is None ==> s.faithful(past)
            && s.master <= capacity)
    }

    /// Writes since leave it so.
    pub proof fn lemma_wf_later(
        &self,
        before: Seq<Seq<Seq<Single>>>,
        after: Seq<Seq<Seq<Single>>>,
        capacity: int,
    )
        requires
            self.wf(before, capacity),
            forall|b: int| 0 <= b < BUFFER_COUNT ==> (#[trigger] before[b]).is_prefix_of(after[b]),
        ensures
            self.wf(after, capacity),
    {
        if let Some(SessionJob::Snapshot(s)) = self.job {
            if s.started && s.result is None {
                s.lemma_faithful_later(before, after);
            }
        }
    }

    /// Where no job was held and one could go back, the ring was looked at once, and a job that came is held
    /// afresh.
    pub open spec fn fetched(&self, before: &SessionEnd) -> bool {
        &&& rings::parcels_offered(self.tx) == rings::parcels_offered(before.tx)
        &&& rings::parcel_sink(self.tx) == rings::parcel_sink(before.tx)
        &&& before.job is Some ==> *self == *before
        &&& before.job is None ==> if rings::parcel_room(self.tx) > 0 {
            &&& rings::looked(before.rx, self.rx)
            &&& self.job == (match rings::latest(self.rx) {
                Some(Parcel::Session(job)) => Some(job.afresh()),
                _ => None,
            })
        } else {
            &&& self.job is None
            &&& self.rx == before.rx
        }
    }

    fn fetch(&mut self)
        requires
            old(self).job is Some ==> rings::parcel_room(old(self).tx) >= 1,
        ensures
            final(self).job is Some ==> rings::parcel_room(final(self).tx) >= 1,
            final(self).fetched(old(self)),
    {
        if self.job.is_some() {
            return;
        }
        if parcel_slots(&mut self.tx) > 0 {
            match take_parcel(&mut self.rx) {
                Some(Parcel::Session(job)) => {
                    self.job = Some(renew(job));
                },
                _ => {},
            }
        }
    }

    /// A finished job went back, as it could.
    pub open spec fn finished(&self, before: &SessionEnd) -> bool {
        &&& self.rx == before.rx
        &&& match before.job {
            Some(job) if job.outcome() is Some => {
                &&& self.job is None
                &&& rings::parcel_sink(self.tx) == rings::parcel_sink(before.tx)
                &&& rings::parcels_offered(self.tx) == rings::parcels_offered(before.tx).push(
                    (Parcel::Session(job), true),
                )
            },
            _ => self.job == before.job && self.tx == before.tx,
        }
    }

    /// A finished job goes back to the host: the ring had room when it was taken.
    fn finish(&mut self)
        requires
            old(self).job is Some ==> rings::parcel_room(old(self).tx) >= 1,
        ensures
            final(self).job is Some ==> rings::parcel_room(final(self).tx) >= 1,
            final(self).finished(old(self)),
    {
        let over: bool = match &self.job {
            Some(job) => job.done(),
            None => false,
        };
        if over {
            match self.job.take() {
                Some(job) => {
                    let _ = send_parcel(&mut self.tx, Parcel::Session(job));
                },
                None => {},
            }
        }
    }

    /// The job held, worked on at a block start: a load applied, a snapshot begun once no block job runs;
    /// with no device running a block job cannot finish either, and a snapshot waiting for one answers so.
    pub open spec fn worked(
        &self,
        before: &SessionEnd,
        la: &Looper,
        ca: Cx,
        lb: &Looper,
        cb: Cx,
        rate: u32,
        idle: bool,
    ) -> bool {
        &&& self.rx == before.rx
        &&& self.tx == before.tx
        &&& match before.job {
            Some(SessionJob::Load(l)) if l.result is None => match self.job {
                Some(SessionJob::Load(m)) => {
                    &&& m.result is Some
                    &&& session::load_applied(la, ca, &l, m.result->0, lb, cb, &Load { result: l.result, ..m })
                },
                _ => false,
            },
            Some(SessionJob::Snapshot(s)) if !s.started && !la.is_busy() => {
                &&& *lb == *la
                &&& cb == ca
                &&& match self.job {
                    Some(SessionJob::Snapshot(t)) => session::snapshot_begun(la, ca, &s, &t, ca.clock.bpm, rate),
                    _ => false,
                }
            },
            Some(SessionJob::Snapshot(s)) if !s.started && idle => {
                &&& *lb == *la
                &&& cb == ca
                &&& self.job == Some(
                    SessionJob::Snapshot(
                        Snapshot { result: Some(Err::<(), SessionError>(SessionError::Changed)), ..s },
                    ),
                )
            },
            _ => *lb == *la && cb == ca && self.job == before.job,
        }
    }

    fn work(&mut self, looper: &mut Looper, cx: &mut Cx, rate: u32, idle: bool)
        requires
            old(looper).ready(*old(cx)),
            old(self).wf(old(looper).pool.past@, old(looper).control.deck.capacity as int),
        ensures
            final(looper).ready(*final(cx)),
            final(cx).when(*old(cx)),
            final(looper).control.deck.capacity == old(looper).control.deck.capacity,
            final(looper).pool.grew(&old(looper).pool),
            final(looper).job_step_max == old(looper).job_step_max,
            final(looper).published == old(looper).published,
            final(looper).published_transport == old(looper).published_transport,
            final(looper).overview == old(looper).overview,
            final(self).wf(final(looper).pool.past@, final(looper).control.deck.capacity as int),
            final(self).worked(old(self), old(looper), *old(cx), final(looper), *final(cx), rate, idle),
    {
        match self.job.take() {
            Some(SessionJob::Load(mut l)) => {
                if l.result.is_none() {
                    let r = looper.load(cx, &mut l);
                    l.result = Some(r);
                }
                self.job = Some(SessionJob::Load(l));
            },
            Some(SessionJob::Snapshot(mut s)) => {
                if !s.started {
                    if !looper.busy() {
                        looper.snapshot_begin(cx, &mut s, cx.clock.bpm(), rate);
                    } else if idle {
                        s.result = Some(Err(SessionError::Changed));
                    }
                }
                self.job = Some(SessionJob::Snapshot(s));
            },
            None => {},
        }
    }

    /// At a block start: take a job the host sent (only while the return ring has room, so it can
    /// always go back), apply a load, begin a snapshot once no block job runs. `idle`: no device runs,
    /// so a block job cannot finish either and a snapshot waiting for one answers `Changed`.
    pub fn begin(&mut self, looper: &mut Looper, cx: &mut Cx, rate: u32, idle: bool)
        requires
            old(looper).ready(*old(cx)),
            old(self).wf(old(looper).pool.past@, old(looper).control.deck.capacity as int),
        ensures
            final(looper).ready(*final(cx)),
            final(cx).when(*old(cx)),
            final(looper).control.deck.capacity == old(looper).control.deck.capacity,
            final(looper).pool.grew(&old(looper).pool),
            final(looper).job_step_max == old(looper).job_step_max,
            final(looper).published == old(looper).published,
            final(looper).published_transport == old(looper).published_transport,
            final(looper).overview == old(looper).overview,
            final(self).wf(final(looper).pool.past@, final(looper).control.deck.capacity as int),
            final(self).job matches Some(job) ==> job.outcome() is None,
            exists|a: SessionEnd, b: SessionEnd|
                {
                    &&& #[trigger] a.fetched(old(self))
                    &&& #[trigger] b.worked(&a, old(looper), *old(cx), final(looper), *final(cx), rate, idle)
                    &&& final(self).finished(&b)
                },
    {
        self.fetch();
        let ghost a = *self;
        self.work(looper, cx, rate, idle);
        let ghost b = *self;
        self.finish();
        assert(a.fetched(old(self)));
        assert(b.worked(&a, old(looper), *old(cx), looper, *cx, rate, idle));
    }

    /// A snapshot in flight copied on.
    pub open spec fn copied(&self, before: &SessionEnd, l: &Looper, budget: int) -> bool {
        &&& self.rx == before.rx
        &&& self.tx == before.tx
        &&& match before.job {
            Some(SessionJob::Snapshot(s)) if s.started && s.result is None => match self.job {
                Some(SessionJob::Snapshot(t)) => session::snapshot_copied(l, &s, &t, budget) && t.faithful(
                    l.pool.past@,
                ),
                _ => false,
            },
            _ => self.job == before.job,
        }
    }

    /// After `frames` rendered: copy the snapshot's share of them.
    pub fn advance(&mut self, looper: &Looper, cx: &Cx, frames: Frame)
        requires
            looper.ready(*cx),
            old(self).wf(looper.pool.past@, looper.control.deck.capacity as int),
        ensures
            final(self).wf(looper.pool.past@, looper.control.deck.capacity as int),
            exists|a: SessionEnd|
                #[trigger] a.copied(old(self), looper, share(frames)) && final(self).finished(&a),
    {
        let budget: usize = share_of(frames);
        match self.job.take() {
            Some(SessionJob::Snapshot(mut s)) => {
                if s.started && s.result.is_none() {
                    looper.snapshot_copy(cx, &mut s, budget);
                }
                self.job = Some(SessionJob::Snapshot(s));
            },
            job => {
                self.job = job;
            },
        }
        let ghost a = *self;
        self.finish();
        assert(a.copied(old(self), looper, share(frames)));
    }
}

} // verus!
