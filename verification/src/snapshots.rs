//! What paces a snapshot, and when one is published or given up on.
//!
//! A dump is written to a partial name, made durable, and only then given the current one, so that a crash
//! at any point leaves either the previous snapshot or the new one. This decides what is asked of the place
//! the bytes go; whoever holds that place does it and says how it went.
//!
//! The cadence is a log distance and not a duration: a node applying nothing writes no snapshots. The
//! throttle is bytes a round. A longer dump holds more buckets aside, and a dump past the budget for those
//! is abandoned rather than let grow: the previous snapshot is still current, and the next cadence tries
//! again.

use vstd::prelude::*;

use crate::budget::lists;
use crate::engine::PendingEngine;
use crate::ledger::ApplyIndex;
use crate::policy::{no_snapshots, SnapshotPolicy, SnapshotStats};
use crate::snapshot::{
    chunk_records, complete, read_past, take_records, NotASnapshot, RECORD, SnapshotReader, SnapshotWriter,
};
use crate::stats::{add_count, plus};
use crate::store::DurableStore;

verus! {

/// What is asked of the place a snapshot goes to.
#[derive(Clone, Copy, Debug, PartialEq, Eq, Structural)]
pub enum Action {
    Nothing,
    /// Bring the partial object into being, empty. Answered by `opened`.
    OpenPartial,
    /// Add this many bytes of the chunk to the partial object. Answered by `wrote`.
    Write(usize),
    /// Make the partial object durable, give it the current name, and make the name durable too. Answered
    /// by `published`.
    Publish,
    /// The partial object will not be published, and may go.
    RemovePartial,
}

/// How far a dump has got.
#[derive(Clone, Copy, Debug, PartialEq, Eq, Structural)]
pub enum Phase {
    /// No dump.
    Idle,
    /// The partial object has been asked for.
    Opening,
    /// Between chunks.
    Dumping,
    /// A chunk is being written.
    Writing,
    /// The stream is whole and is being published.
    Publishing,
}

/// Everything the stage keeps but the dump itself.
pub ghost struct StageView {
    pub policy: SnapshotPolicy,
    pub phase: Phase,
    /// The position the next dump is measured from.
    pub next_from: ApplyIndex,
    /// Rounds the dump in flight has taken.
    pub rounds: u64,
    pub stats: SnapshotStats,
}

impl StageView {
    /// The log has moved far enough since the last attempt.
    pub open spec fn due(self, applied: ApplyIndex) -> bool {
        self.policy.every > 0 && applied.0 >= plus(self.next_from.0, self.policy.every)
    }

    /// With a dump given up on. The cadence starts again from here.
    pub open spec fn given_up(self, applied: ApplyIndex) -> StageView {
        StageView {
            phase: Phase::Idle,
            next_from: applied,
            rounds: 0,
            stats: SnapshotStats { abandoned: plus(self.stats.abandoned, 1), ..self.stats },
            ..self
        }
    }

    /// With a dump published that covers this much.
    pub open spec fn published(self, applied: ApplyIndex, coverage: ApplyIndex) -> StageView {
        StageView {
            phase: Phase::Idle,
            next_from: applied,
            rounds: 0,
            stats: SnapshotStats {
                written: plus(self.stats.written, 1),
                last_rounds: self.rounds,
                covered: coverage.0,
                ..self.stats
            },
            ..self
        }
    }

    /// With a chunk behind it, and this many buckets held aside.
    pub open spec fn measured(self, aside: nat) -> StageView {
        StageView {
            stats: SnapshotStats {
                shadow_peak: if self.stats.shadow_peak < aside {
                    aside as u64
                } else {
                    self.stats.shadow_peak
                },
                ..self.stats
            },
            ..self
        }
    }

    /// A round into a dump, which wrote this many bytes.
    pub open spec fn chunked(self, bytes: int) -> StageView {
        StageView {
            rounds: plus(self.rounds, 1),
            stats: SnapshotStats { bytes: plus(self.stats.bytes, bytes as u64), ..self.stats },
            ..self
        }
    }
}

/// What follows a chunk, from whether the stream is whole, whether it is stuck short of that, and how many
/// buckets are held aside: it is published, it is given up on, or it goes on.
pub open spec fn judged(
    stage: StageView,
    whole: bool,
    stuck: bool,
    aside: nat,
    applied: ApplyIndex,
) -> (Action, StageView) {
    let measured = stage.measured(aside);
    if whole {
        (Action::Publish, StageView { phase: Phase::Publishing, ..measured })
    } else if stuck || aside > stage.policy.shadow_budget {
        (Action::RemovePartial, measured.given_up(applied))
    } else {
        (Action::Nothing, StageView { phase: Phase::Dumping, ..measured })
    }
}

/// What an idle stage does in a round: it asks for the partial object if a dump is due, and nothing otherwise.
pub open spec fn once_idle(stage: StageView, applied: ApplyIndex) -> (Action, StageView) {
    if stage.due(applied) {
        (Action::OpenPartial, StageView { phase: Phase::Opening, ..stage })
    } else {
        (Action::Nothing, stage)
    }
}

/// The stage once it is known whether the partial object is there.
pub open spec fn once_opened(stage: StageView, ok: bool, applied: ApplyIndex) -> StageView {
    if ok {
        StageView { phase: Phase::Dumping, rounds: 0, ..stage }
    } else {
        stage.given_up(applied)
    }
}

/// The stage once it is known whether a chunk was written, from whether the stream is whole then and how many
/// buckets are held aside.
pub open spec fn once_written(
    stage: StageView,
    ok: bool,
    whole: bool,
    aside: nat,
    applied: ApplyIndex,
) -> (Action, StageView) {
    if ok {
        judged(stage, whole, false, aside, applied)
    } else {
        (Action::RemovePartial, stage.given_up(applied))
    }
}

/// The stage once it is known whether the dump wears the current name.
pub open spec fn once_named(
    stage: StageView,
    ok: bool,
    applied: ApplyIndex,
    coverage: ApplyIndex,
) -> (Action, StageView) {
    if ok {
        (Action::Nothing, stage.published(applied, coverage))
    } else {
        (Action::RemovePartial, stage.given_up(applied))
    }
}

/// A chunk was read out of the table: it has been read as far as the dump has got, and the words that are
/// still to be dumped are what they were when the dump began. Once the dump is whole, the table is not
/// being read any more.
pub open spec fn reads_further<S: DurableStore>(
    was: &PendingEngine<S>,
    now: &PendingEngine<S>,
    writer: SnapshotWriter,
    after: SnapshotWriter,
) -> bool {
    &&& after.spec_at() == after.total() ==> !now.table().being_read() && now.table().aside().len() == 0
    &&& after.spec_at() < after.total() && was.table().read_through() == writer.buckets_done() ==> {
        &&& now.table().being_read() == was.table().being_read()
        &&& now.table().read_through() == after.buckets_done()
        &&& read_past(was.table(), now.table())
        &&& forall|i: int|
            0 <= i < now.table().words().len() && i / 4 >= now.table().read_through()
                ==> #[trigger] now.table().snapshot_word(i) == was.table().snapshot_word(i)
    }
}

struct InFlight {
    writer: SnapshotWriter,
    rounds: u64,
}

/// The snapshot stage: how dumps are paced, and the one in flight.
pub struct Snapshots {
    policy: SnapshotPolicy,
    chunk: Vec<u8>,
    phase: Phase,
    inflight: Option<InFlight>,
    /// Moved by an attempt rather than by a success, so that a place that keeps refusing backs off to the
    /// cadence.
    next_from: ApplyIndex,
    stats: SnapshotStats,
}

impl Snapshots {
    pub closed spec fn view(&self) -> StageView {
        StageView {
            policy: self.policy,
            phase: self.phase,
            next_from: self.next_from,
            rounds: match self.inflight {
                Some(run) => run.rounds,
                None => 0,
            },
            stats: self.stats,
        }
    }

    /// The dump in flight.
    pub closed spec fn dump(&self) -> Option<SnapshotWriter> {
        match self.inflight {
            Some(run) => Some(run.writer),
            None => None,
        }
    }

    /// The chunk last taken from the dump.
    pub closed spec fn buffer(&self) -> Seq<u8> {
        self.chunk@
    }

    /// A dump is in flight from when its object is there until it is published or given up on.
    pub open spec fn wf(&self) -> bool {
        &&& RECORD <= self.buffer().len()
        &&& self.dump() is Some <==> self@.phase is Dumping || self@.phase is Writing
            || self@.phase is Publishing
        &&& self.dump() matches Some(writer) ==> writer.wf()
    }

    /// The dump in flight, if any, is of this engine.
    pub open spec fn is_of<S: DurableStore>(&self, engine: &PendingEngine<S>) -> bool {
        self.dump() matches Some(writer) ==> writer.spec_buckets() == engine.table().mask() + 1
    }

    pub fn new(policy: SnapshotPolicy) -> (stage: Self)
        ensures
            stage.wf(),
            stage@ == (StageView {
                policy,
                phase: Phase::Idle,
                next_from: ApplyIndex(0),
                rounds: 0,
                stats: no_snapshots(),
            }),
            stage.dump() is None,
            stage.buffer().len() == if policy.bytes_per_round < RECORD {
                RECORD
            } else {
                policy.bytes_per_round
            },
    {
        let size: usize = if policy.bytes_per_round < RECORD {
            RECORD
        } else {
            policy.bytes_per_round
        };
        Snapshots {
            policy,
            chunk: vec![0u8; size],
            phase: Phase::Idle,
            inflight: None,
            next_from: ApplyIndex(0),
            stats: SnapshotStats::default(),
        }
    }

    pub fn stats(&self) -> (stats: SnapshotStats)
        ensures
            stats == self@.stats,
    {
        self.stats
    }

    pub fn phase(&self) -> (phase: Phase)
        ensures
            phase == self@.phase,
    {
        self.phase
    }

    /// The chunk last taken from the dump. As many of its bytes count as the action to write it says.
    pub fn chunk(&self) -> (chunk: &[u8])
        ensures
            chunk@ == self.buffer(),
    {
        self.chunk.as_slice()
    }

    /// This round's share: a chunk of the dump in flight, or the start of one if the log has moved far
    /// enough since the last.
    pub fn round<S: DurableStore>(&mut self, engine: &mut PendingEngine<S>) -> (action: Action)
        requires
            old(self).wf(),
            old(engine).wf(),
            old(self).is_of(old(engine)),
        ensures
            final(self).wf(),
            final(self).is_of(final(engine)),
            final(engine).read_on(old(engine)),
            old(self)@.phase is Idle ==> {
                &&& *final(engine) == *old(engine)
                &&& (action, final(self)@) == once_idle(old(self)@, old(engine).spec_applied_through())
            },
            old(self)@.phase is Opening || old(self)@.phase is Writing || old(self)@.phase
                is Publishing ==> action == Action::Nothing && *final(self) == *old(self)
                && *final(engine) == *old(engine),
            old(self)@.phase is Dumping ==> {
                let writer = old(self).dump()->0;
                let records = writer.next_records(old(self).buffer().len());
                let chunked = old(self)@.chunked(32 * records);
                &&& records > 0 ==> {
                    &&& action == Action::Write((32 * records) as usize)
                    &&& 32 * records <= final(self).buffer().len()
                    &&& final(self)@ == (StageView { phase: Phase::Writing, ..chunked })
                    &&& final(self).dump() matches Some(after) && after.same_stream(&writer)
                        && after.spec_at() == writer.spec_at() + records
                        && reads_further(old(engine), final(engine), writer, after)
                    &&& forall|k: int|
                        0 <= k < records ==> #[trigger] final(self).buffer().subrange(32 * k, 32 * k + 32)
                            == writer.stream_record(
                            old(engine).table(),
                            old(engine).log(),
                            writer.spec_at() + k,
                        )
                }
                &&& records == 0 ==> (action, final(self)@) == judged(
                    chunked,
                    writer.spec_at() == writer.total(),
                    true,
                    if writer.spec_at() == writer.total() {
                        0
                    } else {
                        old(engine).table().aside().len()
                    },
                    old(engine).spec_applied_through(),
                )
                &&& action == Action::RemovePartial ==> ended(*final(engine))
            },
    {
        match self.phase {
            Phase::Idle => {
                let far: u64 = add_count(self.next_from.0, self.policy.every);
                if self.policy.every == 0 || engine.applied_through().0 < far {
                    return Action::Nothing;
                }
                self.phase = Phase::Opening;
                Action::OpenPartial
            },
            Phase::Dumping => self.step(engine),
            _ => Action::Nothing,
        }
    }

    fn step<S: DurableStore>(&mut self, engine: &mut PendingEngine<S>) -> (action: Action)
        requires
            old(self).wf(),
            old(engine).wf(),
            old(self).is_of(old(engine)),
            old(self)@.phase is Dumping,
        ensures
            final(self).wf(),
            final(self).is_of(final(engine)),
            final(engine).read_on(old(engine)),
            ({
                let writer = old(self).dump()->0;
                let records = writer.next_records(old(self).buffer().len());
                let chunked = old(self)@.chunked(32 * records);
                &&& records > 0 ==> {
                    &&& action == Action::Write((32 * records) as usize)
                    &&& 32 * records <= final(self).buffer().len()
                    &&& final(self)@ == (StageView { phase: Phase::Writing, ..chunked })
                    &&& final(self).dump() matches Some(after) && after.same_stream(&writer)
                        && after.spec_at() == writer.spec_at() + records
                        && reads_further(old(engine), final(engine), writer, after)
                    &&& forall|k: int|
                        0 <= k < records ==> #[trigger] final(self).buffer().subrange(32 * k, 32 * k + 32)
                            == writer.stream_record(
                            old(engine).table(),
                            old(engine).log(),
                            writer.spec_at() + k,
                        )
                }
                &&& records == 0 ==> (action, final(self)@) == judged(
                    chunked,
                    writer.spec_at() == writer.total(),
                    true,
                    if writer.spec_at() == writer.total() {
                        0
                    } else {
                        old(engine).table().aside().len()
                    },
                    old(engine).spec_applied_through(),
                )
                &&& action == Action::RemovePartial ==> ended(*final(engine))
            }),
    {
        match self.inflight.take() {
            None => Action::Nothing,
            Some(run) => {
                let mut writer = run.writer;
                let rounds: u64 = add_count(run.rounds, 1);
                let ghost was = writer;
                let ghost size = self.chunk@.len();
                let written: usize = engine.next_snapshot_chunk(
                    &mut writer,
                    self.chunk.as_mut_slice(),
                );
                let length: usize = self.chunk.len();
                assert(written <= length);
                self.stats.bytes = add_count(self.stats.bytes, written as u64);
                let ghost chunked = old(self)@.chunked(32 * was.next_records(size));
                self.inflight = Some(InFlight { writer, rounds });
                if written == 0 {
                    return self.judge(true, engine);
                }
                self.phase = Phase::Writing;
                Action::Write(written)
            },
        }
    }

    /// The chunk behind a dump decides how it goes on. Asked after the chunk rather than before it: the
    /// buckets a chunk read are no longer held aside for it.
    fn judge<S: DurableStore>(&mut self, stuck: bool, engine: &mut PendingEngine<S>) -> (action: Action)
        requires
            RECORD <= old(self).buffer().len(),
            old(self).dump() matches Some(writer) && writer.wf(),
            old(engine).wf(),
            old(self).is_of(old(engine)),
        ensures
            final(self).wf(),
            final(self).is_of(final(engine)),
            final(engine).read_on(old(engine)),
            (action, final(self)@) == judged(
                old(self)@,
                old(self).dump()->0.spec_at() == old(self).dump()->0.total(),
                stuck,
                old(engine).table().aside().len(),
                old(engine).spec_applied_through(),
            ),
            action == Action::RemovePartial ==> ended(*final(engine)),
            action != Action::RemovePartial ==> *final(engine) == *old(engine) && final(self).dump()
                == old(self).dump(),
    {
        let shadow: usize = engine.shadowed_buckets();
        if self.stats.shadow_peak < shadow as u64 {
            self.stats.shadow_peak = shadow as u64;
        }
        let whole = match &self.inflight {
            Some(run) => run.writer.is_complete(),
            None => false,
        };
        if whole {
            self.phase = Phase::Publishing;
            return Action::Publish;
        }
        if stuck || shadow > self.policy.shadow_budget {
            self.give_up(engine);
            return Action::RemovePartial;
        }
        self.phase = Phase::Dumping;
        Action::Nothing
    }

    /// Ends a dump that will not be published: the buckets held aside for it go, and the cadence starts
    /// again from here. Nothing is lost but the work.
    fn give_up<S: DurableStore>(&mut self, engine: &mut PendingEngine<S>)
        requires
            RECORD <= old(self).buffer().len(),
            old(engine).wf(),
        ensures
            final(self).wf(),
            final(self).dump() is None,
            final(engine).read_on(old(engine)),
            ended(*final(engine)),
            final(self)@ == old(self)@.given_up(old(engine).spec_applied_through()),
    {
        self.inflight = None;
        self.phase = Phase::Idle;
        engine.abandon_snapshot();
        self.stats.abandoned = add_count(self.stats.abandoned, 1);
        self.next_from = engine.applied_through();
    }

    /// Whether the partial object came into being. Only then does the engine have to live with a dump.
    pub fn opened<S: DurableStore>(&mut self, ok: bool, engine: &mut PendingEngine<S>)
        requires
            old(self).wf(),
            old(engine).wf(),
        ensures
            final(self).wf(),
            old(self)@.phase is Opening ==> final(self).is_of(final(engine)),
            final(engine).read_on(old(engine)),
            old(self)@.phase !is Opening ==> *final(self) == *old(self) && *final(engine) == *old(engine),
            old(self)@.phase is Opening ==> final(self)@ == once_opened(
                old(self)@,
                ok,
                old(engine).spec_applied_through(),
            ),
            old(self)@.phase is Opening && !ok ==> *final(engine) == *old(engine),
            old(self)@.phase is Opening && ok ==> {
                &&& final(engine).table().being_read()
                &&& final(engine).table().read_through() == 0
                &&& forall|i: int|
                    0 <= i < old(engine).table().words().len() ==> #[trigger] final(engine).table().snapshot_word(i) == old(engine).table().words()[i]
                &&& final(self).dump() matches Some(writer) && writer.spec_at() == 0
                    && writer.spec_buckets() == old(engine).table().mask() + 1 && lists(
                    writer.spec_groups(),
                    old(engine).groups(),
                )
                    && writer.spec_coverage() == old(engine).log().covered_through(
                    old(engine).spec_applied_through(),
                ) && writer.spec_reflects() == old(engine).spec_applied_through()
            },
    {
        match self.phase {
            Phase::Opening => {
                if ok {
                    let writer = engine.begin_snapshot();
                    self.inflight = Some(InFlight { writer, rounds: 0 });
                    self.phase = Phase::Dumping;
                } else {
                    self.phase = Phase::Idle;
                    self.stats.abandoned = add_count(self.stats.abandoned, 1);
                    self.next_from = engine.applied_through();
                }
            },
            _ => {},
        }
    }

    /// Whether the chunk was written.
    pub fn wrote<S: DurableStore>(&mut self, ok: bool, engine: &mut PendingEngine<S>) -> (action: Action)
        requires
            old(self).wf(),
            old(engine).wf(),
            old(self).is_of(old(engine)),
        ensures
            final(self).wf(),
            final(self).is_of(final(engine)),
            final(engine).read_on(old(engine)),
            old(self)@.phase !is Writing ==> action == Action::Nothing && *final(self) == *old(self)
                && *final(engine) == *old(engine),
            old(self)@.phase is Writing ==> (action, final(self)@) == once_written(
                old(self)@,
                ok,
                old(self).dump()->0.spec_at() == old(self).dump()->0.total(),
                old(engine).table().aside().len(),
                old(engine).spec_applied_through(),
            ),
            action == Action::RemovePartial ==> ended(*final(engine)) && final(self).dump() is None,
            action != Action::RemovePartial ==> final(self).dump() == old(self).dump(),
    {
        match self.phase {
            Phase::Writing => {
                if ok {
                    self.judge(false, engine)
                } else {
                    self.give_up(engine);
                    Action::RemovePartial
                }
            },
            _ => Action::Nothing,
        }
    }

    /// Whether the dump wears the current name, durably. Either way the next one is measured from here.
    pub fn published<S: DurableStore>(&mut self, ok: bool, engine: &PendingEngine<S>) -> (action: Action)
        requires
            old(self).wf(),
        ensures
            final(self).wf(),
            old(self)@.phase !is Publishing ==> action == Action::Nothing && *final(self) == *old(self),
            old(self)@.phase is Publishing ==> final(self).dump() is None,
            old(self)@.phase is Publishing ==> (action, final(self)@) == once_named(
                old(self)@,
                ok,
                engine.spec_applied_through(),
                old(self).dump()->0.spec_coverage(),
            ),
    {
        match self.phase {
            Phase::Publishing => {},
            _ => {
                return Action::Nothing;
            },
        }
        match self.inflight.take() {
            None => Action::Nothing,
            Some(run) => {
                self.phase = Phase::Idle;
                self.next_from = engine.applied_through();
                if !ok {
                    self.stats.abandoned = add_count(self.stats.abandoned, 1);
                    return Action::RemovePartial;
                }
                self.stats.written = add_count(self.stats.written, 1);
                self.stats.last_rounds = run.rounds;
                self.stats.covered = run.writer.coverage().0;
                Action::Nothing
            },
        }
    }

    /// Ends a dump in flight without publishing it. For a store that has broken: nothing more will be
    /// applied, and a snapshot of a node that has stopped is work nobody will read.
    pub fn abandon<S: DurableStore>(&mut self, engine: &mut PendingEngine<S>) -> (action: Action)
        requires
            old(self).wf(),
            old(engine).wf(),
        ensures
            final(self).wf(),
            final(self).dump() is None,
            final(engine).read_on(old(engine)),
            old(self).dump() is None ==> action == Action::Nothing && *final(self) == *old(self)
                && *final(engine) == *old(engine),
            old(self).dump() is Some ==> {
                &&& action == Action::RemovePartial
                &&& final(self)@ == old(self)@.given_up(old(engine).spec_applied_through())
                &&& ended(*final(engine))
            },
    {
        if self.inflight.is_none() {
            return Action::Nothing;
        }
        self.give_up(engine);
        Action::RemovePartial
    }
}

/// Nothing is held aside for a dump.
pub open spec fn ended<S: DurableStore>(engine: PendingEngine<S>) -> bool {
    &&& !engine.table().being_read()
    &&& engine.table().aside().len() == 0
}

/// A piece of a stored snapshot, taken into an engine. A piece that is not a whole number of records is a
/// stream that was cut short, and is refused.
pub fn restore_piece<S: DurableStore>(
    reader: &mut SnapshotReader,
    piece: &[u8],
    engine: &mut PendingEngine<S>,
) -> (taken: Result<(), NotASnapshot>)
    requires
        old(engine).wf(),
    ensures
        final(engine).wf(),
        final(engine).log() == old(engine).log(),
        final(engine).groups() == old(engine).groups(),
        final(engine).spec_applied_through() == old(engine).spec_applied_through(),
        final(engine).table().mask() == old(engine).table().mask(),
        piece@.len() % 32 != 0 ==> {
            &&& taken == Err::<(), NotASnapshot>(NotASnapshot::Malformed)
            &&& final(reader)@ == old(reader)@
            &&& final(engine).table().words() == old(engine).table().words()
        },
        piece@.len() % 32 == 0 ==> {
            let outcome = take_records(
                old(reader)@,
                old(engine).table().words(),
                chunk_records(piece@),
            );
            &&& taken == outcome.result
            &&& final(reader)@ == outcome.taken
            &&& final(engine).table().words() == outcome.words
        },
{
    reader.take_chunk(piece, engine.index_mut())
}

/// The end of a stored snapshot. A stream with records missing is refused; a whole one gives the engine its
/// group totals and its position.
///
/// What this restores is the index, the totals and the position. Which block comes next and which blocks
/// each day owns are derived afterwards, from what the index points at.
pub fn restore_end<S: DurableStore>(reader: SnapshotReader, engine: &mut PendingEngine<S>) -> (done:
    Result<(), NotASnapshot>)
    requires
        old(engine).wf(),
    ensures
        final(engine).wf(),
        !complete(reader@) ==> done == Err::<(), NotASnapshot>(NotASnapshot::Malformed)
            && *final(engine) == *old(engine),
        complete(reader@) ==> {
            &&& done == Ok::<(), NotASnapshot>(())
            &&& final(engine).groups() == reader@.groups
            &&& final(engine).spec_applied_through() == reader@.coverage
            &&& final(engine).table() == old(engine).table()
            &&& final(engine).log() == old(engine).log()
        },
{
    if !reader.is_complete() {
        return Err(NotASnapshot::Malformed);
    }
    let coverage = reader.coverage();
    engine.restore(reader.into_groups(), coverage);
    Ok(())
}

/// A dump is published only when its whole stream has been written, and never past its budget before that.
pub proof fn law_only_a_whole_stream_is_published(
    stage: StageView,
    whole: bool,
    stuck: bool,
    aside: nat,
    applied: ApplyIndex,
)
    ensures
        judged(stage, whole, stuck, aside, applied).0 == Action::Publish <==> whole,
        !whole && aside > stage.policy.shadow_budget ==> judged(stage, whole, stuck, aside, applied).0
            == Action::RemovePartial,
{
}

/// A node that applies nothing writes no snapshots, however many rounds it runs: after an attempt, whatever
/// came of it, the next one waits for the log to move as far as the cadence says.
pub proof fn law_the_cadence_follows_the_log(
    stage: StageView,
    applied: ApplyIndex,
    later: ApplyIndex,
    coverage: ApplyIndex,
)
    requires
        applied.0 + stage.policy.every <= u64::MAX,
    ensures
        stage.given_up(applied).due(later) <==> stage.policy.every > 0 && later.0 >= applied.0
            + stage.policy.every,
        stage.published(applied, coverage).due(later) <==> stage.policy.every > 0 && later.0
            >= applied.0 + stage.policy.every,
{
}

/// Whatever ends an attempt, the stage is ready for the next: no dump, no rounds, and the cadence measured
/// from what has been applied. What was given up on counts as abandoned, what was published as written,
/// with what it covers and the rounds it took.
pub proof fn law_an_attempt_ends_in_one_way(stage: StageView, applied: ApplyIndex, coverage: ApplyIndex)
    requires
        stage.stats.abandoned < u64::MAX,
        stage.stats.written < u64::MAX,
    ensures
        ({
            let lost = stage.given_up(applied);
            &&& lost.phase is Idle
            &&& lost.rounds == 0
            &&& lost.next_from == applied
            &&& lost.policy == stage.policy
            &&& lost.stats.abandoned == stage.stats.abandoned + 1
            &&& SnapshotStats { abandoned: stage.stats.abandoned, ..lost.stats } == stage.stats
        }),
        ({
            let kept = stage.published(applied, coverage);
            &&& kept.phase is Idle
            &&& kept.rounds == 0
            &&& kept.next_from == applied
            &&& kept.policy == stage.policy
            &&& kept.stats.written == stage.stats.written + 1
            &&& kept.stats.covered == coverage.0
            &&& kept.stats.last_rounds == stage.rounds
            &&& kept.stats.abandoned == stage.stats.abandoned
            &&& kept.stats.bytes == stage.stats.bytes
            &&& kept.stats.shadow_peak == stage.stats.shadow_peak
        }),
{
}

/// A round of a dump counts one round and the bytes it wrote, and the most held aside is the most that ever
/// was: nothing else of the stage moves.
pub proof fn law_a_round_counts_its_bytes(stage: StageView, bytes: int, aside: nat)
    requires
        0 <= bytes,
        stage.rounds < u64::MAX,
        stage.stats.bytes + bytes <= u64::MAX,
        aside <= u64::MAX,
    ensures
        ({
            let after = stage.chunked(bytes);
            &&& after.rounds == stage.rounds + 1
            &&& after.stats.bytes == stage.stats.bytes + bytes
            &&& StageView {
                rounds: stage.rounds,
                stats: SnapshotStats { bytes: stage.stats.bytes, ..after.stats },
                ..after
            } == stage
        }),
        ({
            let after = stage.measured(aside);
            &&& after.stats.shadow_peak >= aside
            &&& after.stats.shadow_peak >= stage.stats.shadow_peak
            &&& after.stats.shadow_peak == aside || after.stats.shadow_peak == stage.stats.shadow_peak
            &&& StageView {
                stats: SnapshotStats { shadow_peak: stage.stats.shadow_peak, ..after.stats },
                ..after
            } == stage
        }),
{
}

/// After a chunk a dump is published if its stream is whole, is given up on if it cannot go on or holds too
/// much aside, and goes on otherwise: exactly one of the three, and the stage says which.
pub proof fn law_a_chunk_decides_how_a_dump_goes_on(
    stage: StageView,
    whole: bool,
    stuck: bool,
    aside: nat,
    applied: ApplyIndex,
)
    ensures
        ({
            let (action, after) = judged(stage, whole, stuck, aside, applied);
            &&& whole ==> action == Action::Publish && after.phase is Publishing && after.rounds
                == stage.rounds && after.next_from == stage.next_from && after.stats.abandoned
                == stage.stats.abandoned
            &&& !whole && (stuck || aside > stage.policy.shadow_budget) ==> action == Action::RemovePartial
                && after.phase is Idle && after.next_from == applied
            &&& !whole && !stuck && aside <= stage.policy.shadow_budget ==> action == Action::Nothing
                && after.phase is Dumping && after.rounds == stage.rounds && after.next_from
                == stage.next_from && after.stats.abandoned == stage.stats.abandoned
            &&& after.policy == stage.policy
            &&& after.stats.written == stage.stats.written
        }),
{
}

/// A dump is begun when the log has moved as far as the cadence says since the last attempt, and not before. It
/// goes on only if its object is there, and each step that fails ends it: the partial object goes, and the
/// cadence begins again from what has been applied.
pub proof fn law_a_step_that_fails_ends_the_dump(
    stage: StageView,
    whole: bool,
    aside: nat,
    applied: ApplyIndex,
    coverage: ApplyIndex,
)
    requires
        stage.stats.abandoned < u64::MAX,
        stage.stats.written < u64::MAX,
        stage.next_from.0 + stage.policy.every <= u64::MAX,
    ensures
        once_idle(stage, applied).0 == Action::OpenPartial <==> stage.policy.every > 0 && applied.0
            >= stage.next_from.0 + stage.policy.every,
        once_idle(stage, applied).0 == Action::OpenPartial || once_idle(stage, applied) == (
            Action::Nothing,
            stage,
        ),
        once_idle(stage, applied).0 == Action::OpenPartial ==> once_idle(stage, applied).1.phase is Opening,
        once_opened(stage, true, applied).phase is Dumping,
        once_opened(stage, true, applied).rounds == 0,
        once_opened(stage, true, applied).stats == stage.stats,
        once_opened(stage, true, applied).next_from == stage.next_from,
        once_opened(stage, false, applied).phase is Idle,
        once_opened(stage, false, applied).next_from == applied,
        once_opened(stage, false, applied).stats.abandoned == stage.stats.abandoned + 1,
        once_written(stage, false, whole, aside, applied).0 == Action::RemovePartial,
        once_written(stage, false, whole, aside, applied).1.phase is Idle,
        once_written(stage, false, whole, aside, applied).1.next_from == applied,
        once_written(stage, false, whole, aside, applied).1.stats.abandoned == stage.stats.abandoned + 1,
        once_written(stage, true, whole, aside, applied).0 == Action::Publish <==> whole,
        !whole && aside <= stage.policy.shadow_budget ==> once_written(
            stage,
            true,
            whole,
            aside,
            applied,
        ).1.phase is Dumping,
        once_named(stage, true, applied, coverage).0 == Action::Nothing,
        once_named(stage, true, applied, coverage).1.stats.written == stage.stats.written + 1,
        once_named(stage, true, applied, coverage).1.stats.covered == coverage.0,
        once_named(stage, true, applied, coverage).1.stats.last_rounds == stage.rounds,
        once_named(stage, false, applied, coverage).0 == Action::RemovePartial,
        once_named(stage, false, applied, coverage).1.stats.written == stage.stats.written,
        once_named(stage, false, applied, coverage).1.stats.abandoned == stage.stats.abandoned + 1,
        once_named(stage, false, applied, coverage).1.stats.covered == stage.stats.covered,
        once_named(stage, true, applied, coverage).1.next_from == applied,
        once_named(stage, false, applied, coverage).1.next_from == applied,
{
}

} // verus!
