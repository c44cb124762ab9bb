use vstd::prelude::*;
use crate::codec::{encode, encoding, lemma_parse_encoding, parse, Command, CommandView, CorruptRecord};
use crate::index::{bytes_eq, clone_bytes, CommandPos, Index};
use crate::replay::{apply_record, load, replay_segments, ascending};
use crate::compaction::{lemma_replay_segments_valid, put_at};

verus! {

/// Size and count limits that drive rotation and compaction.
#[derive(Debug, Clone, Copy, PartialEq, Eq, Structural)]
pub struct StoreConfig {
    /// Active segment size, in bytes, past which the next write starts a new segment.
    pub split_threshold: u64,
    /// Number of open segments at which a rotation becomes a compaction.
    pub compaction_trigger: u64,
}

/// Errors of the storage engine.
#[derive(Debug, Clone, Copy, PartialEq, Eq, Structural)]
pub enum StoreError {
    /// Malformed bytes in a segment.
    Corrupt(CorruptRecord),
    /// The index refers to a segment that is not open.
    MissingSegment { generation: u64 },
    /// The bytes at an indexed location are not a `Put` of the key looked up.
    UnexpectedRecord,
    /// Generation numbers or offsets are exhausted.
    Exhausted,
    /// A compaction is already in flight.
    CompactionRunning,
    /// A step that does not follow from the engine's state.
    InvalidStep,
    /// Compaction results that do not fit the engine's state.
    InvalidCompaction,
}

/// What a compaction works on: a fresh target segment for the live data, a fresh
/// active segment for writers, and the segments that the target supersedes.
#[derive(Debug, Clone, PartialEq, Eq)]
pub struct CompactionPlan {
    pub target: u64,
    pub active: u64,
    pub snapshot: Vec<u64>,
}

/// What must happen to the segment files before a write is appended.
#[derive(Debug, Clone, PartialEq, Eq)]
pub enum WriteStep {
    /// Append to the active segment.
    Append,
    /// Create segment `generation` and make it the active one.
    Rotate { generation: u64 },
    /// Create both segments of the plan, make `active` the active one, and compact
    /// the snapshot into `target` in the background.
    Compact(CompactionPlan),
}

/// The mathematical state of an engine.
pub struct EngineView {
    pub index: Map<Seq<u8>, CommandPos>,
    pub generations: Seq<u64>,
    pub current_generation: u64,
    pub active_size: u64,
    pub compacting: bool,
    pub config: StoreConfig,
}

/// The in-memory state of a store: index, open segments, active segment.
pub struct Engine {
    index: Index,
    generations: Vec<u64>,
    current_generation: u64,
    active_size: u64,
    compacting: bool,
    config: StoreConfig,
}

impl View for Engine {
    type V = EngineView;

    closed spec fn view(&self) -> EngineView {
        EngineView {
            index: self.index@,
            generations: self.generations@,
            current_generation: self.current_generation,
            active_size: self.active_size,
            compacting: self.compacting,
            config: self.config,
        }
    }
}

/// Strictly ascending generation numbers.
pub open spec fn strictly_ascending(s: Seq<u64>) -> bool {
    forall|i: int, j: int| 0 <= i < j < s.len() ==> s[i] < s[j]
}

/// The decision taken before a write, from the state alone.
pub open spec fn next_step(v: EngineView) -> Option<WriteStepView> {
    if v.active_size <= v.config.split_threshold {
        Some(WriteStepView::Append)
    } else if v.compacting || v.generations.len() < v.config.compaction_trigger {
        if v.current_generation < u64::MAX {
            Some(WriteStepView::Rotate { generation: (v.current_generation + 1) as u64 })
        } else {
            None
        }
    } else if v.current_generation < u64::MAX - 1 {
        Some(
            WriteStepView::Compact {
                target: (v.current_generation + 1) as u64,
                active: (v.current_generation + 2) as u64,
                snapshot: v.generations,
            },
        )
    } else {
        None
    }
}

/// The mathematical value of a write step.
pub enum WriteStepView {
    Append,
    Rotate { generation: u64 },
    Compact { target: u64, active: u64, snapshot: Seq<u64> },
}

impl View for WriteStep {
    type V = WriteStepView;

    open spec fn view(&self) -> WriteStepView {
        match self {
            WriteStep::Append => WriteStepView::Append,
            WriteStep::Rotate { generation } => WriteStepView::Rotate { generation: *generation },
            WriteStep::Compact(p) => WriteStepView::Compact {
                target: p.target,
                active: p.active,
                snapshot: p.snapshot@,
            },
        }
    }
}

/// Whether `step` follows from state `v`: a rotation to the next generation, or a
/// compaction of all open segments into the next one, with none in flight.
pub open spec fn step_valid(v: EngineView, step: WriteStepView) -> bool {
    match step {
        WriteStepView::Append => true,
        WriteStepView::Rotate { generation } => v.current_generation < u64::MAX && generation
            == v.current_generation + 1,
        WriteStepView::Compact { target, active, snapshot } => !v.compacting
            && v.current_generation < u64::MAX - 1 && target == v.current_generation + 1
            && active == v.current_generation + 2 && snapshot == v.generations,
    }
}

/// Compaction results that fit state `v`: see `Engine::compaction_fits`.
pub open spec fn publishable(v: EngineView, target: u64, moves: Seq<Move>) -> bool {
    &&& target <= v.current_generation
    &&& v.generations.contains(target)
    &&& forall|i: int| 0 <= i < moves.len() ==> (#[trigger] moves[i]).2.generation == target
    &&& forall|i: int, j: int| 0 <= i < j < moves.len() ==> moves[i].0@ != moves[j].0@
    &&& forall|k: Seq<u8>|
        #[trigger] v.index.contains_key(k) && v.index[k].generation < target ==> exists|i: int|
            0 <= i < moves.len() && moves[i].0@ == k && moves[i].1 == v.index[k]
}

/// The state after `step` was taken.
pub open spec fn after_step(v: EngineView, step: WriteStepView) -> EngineView {
    match step {
        WriteStepView::Append => v,
        WriteStepView::Rotate { generation } => EngineView {
            generations: v.generations.push(generation),
            current_generation: generation,
            active_size: 0,
            ..v
        },
        WriteStepView::Compact { target, active, .. } => EngineView {
            generations: v.generations.push(target).push(active),
            current_generation: active,
            active_size: 0,
            compacting: true,
            ..v
        },
    }
}

/// One key moved by a compaction: its key, where it was, where it is now.
pub type Move = (Vec<u8>, CommandPos, CommandPos);

/// The index after a compaction's moves are published: a key takes its new
/// location only where the index still holds the location that was compacted.
pub open spec fn published(
    m: Map<Seq<u8>, CommandPos>,
    moves: Seq<(Seq<u8>, CommandPos, CommandPos)>,
) -> Map<Seq<u8>, CommandPos>
    decreases moves.len(),
{
    if moves.len() == 0 {
        m
    } else {
        let prev = published(m, moves.drop_last());
        let (k, from, to) = moves.last();
        if prev.contains_key(k) && prev[k] == from {
            prev.insert(k, to)
        } else {
            prev
        }
    }
}

pub open spec fn moves_view(moves: Seq<Move>) -> Seq<(Seq<u8>, CommandPos, CommandPos)> {
    moves.map_values(|m: Move| (m.0@, m.1, m.2))
}

impl Engine {
    pub closed spec fn wf(&self) -> bool {
        &&& self.index.wf()
        &&& strictly_ascending(self.generations@)
        &&& self.generations@.len() > 0
        &&& self.generations@.last() == self.current_generation
        &&& forall|k: Seq<u8>|
            #[trigger] self.index@.contains_key(k) ==> self.generations@.contains(
                self.index@[k].generation,
            )
    }

    /// An engine whose index is rebuilt from `segments`, given in ascending
    /// generation order, with a fresh empty active segment after the newest one.
    pub fn recover(config: StoreConfig, segments: &Vec<(u64, Vec<u8>)>) -> (res: Result<Engine, StoreError>)
        requires
            ascending(segments@.map_values(|s: (u64, Vec<u8>)| (s.0, s.1@))),
        ensures
            match res {
                Ok(e) => {
                    &&& e.wf()
                    &&& Some(e@.index) == replay_segments(
                        Map::empty(),
                        segments@.map_values(|s: (u64, Vec<u8>)| (s.0, s.1@)),
                    )
                    &&& e@.current_generation == if segments@.len() == 0 {
                        1
                    } else {
                        segments@.last().0 + 1
                    }
                    &&& e@.generations == segments@.map_values(|s: (u64, Vec<u8>)| s.0).push(
                        e@.current_generation,
                    )
                    &&& e@.active_size == 0
                    &&& !e@.compacting
                    &&& e@.config == config
                },
                Err(StoreError::Corrupt(_)) => replay_segments(
                    Map::empty(),
                    segments@.map_values(|s: (u64, Vec<u8>)| (s.0, s.1@)),
                ) is None,
                Err(StoreError::Exhausted) => segments@.len() > 0 && segments@.last().0
                    == u64::MAX,
                Err(_) => false,
            },
    {
        let ghost segs = segments@.map_values(|s: (u64, Vec<u8>)| (s.0, s.1@));
        let mut generations: Vec<u64> = Vec::new();
        let mut i: usize = 0;
        while i < segments.len()
            invariant
                i <= segments@.len(),
                segs == segments@.map_values(|s: (u64, Vec<u8>)| (s.0, s.1@)),
                ascending(segs),
                generations@ == segments@.map_values(|s: (u64, Vec<u8>)| s.0).subrange(0, i as int),
                forall|a: int| 0 <= a < i ==> #[trigger] segs[a].1.len() <= u64::MAX,
            decreases segments@.len() - i,
        {
            let n: usize = segments[i].1.len();
            assert(segs[i as int].1.len() == n);
            generations.push(segments[i].0);
            i = i + 1;
            assert(generations@ =~= segments@.map_values(|s: (u64, Vec<u8>)| s.0).subrange(0, i as int));
        }
        assert(generations@ =~= segments@.map_values(|s: (u64, Vec<u8>)| s.0));
        let last: u64 = if segments.len() == 0 {
            0
        } else {
            segments[segments.len() - 1].0
        };
        if last == u64::MAX {
            return Err(StoreError::Exhausted);
        }
        let current_generation = last + 1;
        let index = match load(segments) {
            Ok(idx) => idx,
            Err(e) => {
                return Err(StoreError::Corrupt(e));
            },
        };
        assert(forall|j: int| 0 <= j < generations@.len() ==> generations@[j] == segs[j].0);
        proof {
            assert(segs.subrange(0, segs.len() as int) =~= segs);
            lemma_replay_segments_valid(segs, segs.len() as int);
        }
        let ghost old_gens = generations@;
        generations.push(current_generation);
        assert forall|k: Seq<u8>| #[trigger] index@.contains_key(k) implies generations@.contains(
            index@[k].generation,
        ) by {
            let j = choose|j: int| put_at(segs, j, k, index@[k]);
            assert(generations@[j] == index@[k].generation);
        }
        Ok(Engine { index, generations, current_generation, active_size: 0, compacting: false, config })
    }

    /// Decides, before a write, whether the active segment is kept, rotated, or
    /// replaced while the older ones are compacted. Changes nothing: the caller
    /// creates the segment files the step needs, then calls `apply_step`.
    pub fn plan_write(&self) -> (res: Result<WriteStep, StoreError>)
        requires
            self.wf(),
        ensures
            match next_step(self@) {
                Some(s) => res matches Ok(step) && step@ == s,
                None => res == Err::<WriteStep, StoreError>(StoreError::Exhausted),
            },
    {
        if self.active_size <= self.config.split_threshold {
            return Ok(WriteStep::Append);
        }
        if self.compacting || (self.generations.len() as u64) < self.config.compaction_trigger {
            if self.current_generation == u64::MAX {
                return Err(StoreError::Exhausted);
            }
            Ok(WriteStep::Rotate { generation: self.current_generation + 1 })
        } else {
            match self.plan_compaction() {
                Ok(plan) => Ok(WriteStep::Compact(plan)),
                Err(e) => Err(e),
            }
        }
    }

    /// The compaction of every open segment that would start now: the next
    /// generation becomes the compaction target, the one after it the new active
    /// segment. Refused while another compaction is in flight. Changes nothing.
    pub fn plan_compaction(&self) -> (res: Result<CompactionPlan, StoreError>)
        requires
            self.wf(),
        ensures
            self@.compacting ==> res == Err::<CompactionPlan, StoreError>(
                StoreError::CompactionRunning,
            ),
            !self@.compacting && self@.current_generation >= u64::MAX - 1 ==> res
                == Err::<CompactionPlan, StoreError>(StoreError::Exhausted),
            !self@.compacting && self@.current_generation < u64::MAX - 1 ==> (res matches Ok(
                plan,
            ) && WriteStep::Compact(plan)@ == (WriteStepView::Compact {
                target: (self@.current_generation + 1) as u64,
                active: (self@.current_generation + 2) as u64,
                snapshot: self@.generations,
            })),
    {
        if self.compacting {
            return Err(StoreError::CompactionRunning);
        }
        if self.current_generation >= u64::MAX - 1 {
            return Err(StoreError::Exhausted);
        }
        let snapshot = self.generations.clone();
        assert(snapshot@ =~= self.generations@);
        Ok(
            CompactionPlan {
                target: self.current_generation + 1,
                active: self.current_generation + 2,
                snapshot,
            },
        )
    }

    /// Takes a step once its segment files exist: a rotation makes the new
    /// generation the active one; a compaction opens its target and active segments
    /// and marks a compaction in flight. A step that does not follow from the
    /// current state is refused with `InvalidStep` and changes nothing.
    pub fn apply_step(&mut self, step: &WriteStep) -> (res: Result<(), StoreError>)
        requires
            old(self).wf(),
        ensures
            final(self).wf(),
            step_valid(old(self)@, step@) ==> res is Ok && final(self)@ == after_step(
                old(self)@,
                step@,
            ),
            !step_valid(old(self)@, step@) ==> res == Err::<(), StoreError>(
                StoreError::InvalidStep,
            ) && final(self)@ == old(self)@,
    {
        match step {
            WriteStep::Append => Ok(()),
            WriteStep::Rotate { generation } => {
                if self.current_generation == u64::MAX || *generation != self.current_generation
                    + 1 {
                    return Err(StoreError::InvalidStep);
                }
                proof {
                    lemma_push_keeps(self.generations@, *generation);
                }
                self.generations.push(*generation);
                self.current_generation = *generation;
                self.active_size = 0;
                Ok(())
            },
            WriteStep::Compact(plan) => {
                if self.compacting || self.current_generation >= u64::MAX - 1 || plan.target
                    != self.current_generation + 1 || plan.active != self.current_generation + 2
                    || !u64s_eq(&plan.snapshot, &self.generations) {
                    return Err(StoreError::InvalidStep);
                }
                let target = plan.target;
                let active = plan.active;
                proof {
                    lemma_push_keeps(self.generations@, target);
                    lemma_push_keeps(self.generations@.push(target), active);
                }
                self.generations.push(target);
                self.generations.push(active);
                self.current_generation = active;
                self.active_size = 0;
                self.compacting = true;
                Ok(())
            },
        }
    }

    /// Decides and takes the step before a write at once: `plan_write`, then
    /// `apply_step`.
    pub fn begin_write(&mut self) -> (res: Result<WriteStep, StoreError>)
        requires
            old(self).wf(),
        ensures
            final(self).wf(),
            match next_step(old(self)@) {
                Some(s) => res matches Ok(step) && step@ == s && final(self)@ == after_step(
                    old(self)@,
                    s,
                ),
                None => res == Err::<WriteStep, StoreError>(StoreError::Exhausted)
                    && final(self)@ == old(self)@,
            },
    {
        let step = match self.plan_write() {
            Ok(step) => step,
            Err(e) => {
                return Err(e);
            },
        };
        let applied = self.apply_step(&step);
        assert(applied is Ok);
        Ok(step)
    }

    /// Plans and starts a compaction at once: `plan_compaction`, then `apply_step`.
    pub fn begin_compaction(&mut self) -> (res: Result<CompactionPlan, StoreError>)
        requires
            old(self).wf(),
        ensures
            final(self).wf(),
            old(self)@.compacting ==> res == Err::<CompactionPlan, StoreError>(
                StoreError::CompactionRunning,
            ) && final(self)@ == old(self)@,
            !old(self)@.compacting && old(self)@.current_generation >= u64::MAX - 1 ==> res
                == Err::<CompactionPlan, StoreError>(StoreError::Exhausted) && final(self)@
                == old(self)@,
            !old(self)@.compacting && old(self)@.current_generation < u64::MAX - 1 ==> ({
                let step = WriteStepView::Compact {
                    target: (old(self)@.current_generation + 1) as u64,
                    active: (old(self)@.current_generation + 2) as u64,
                    snapshot: old(self)@.generations,
                };
                res matches Ok(plan) && WriteStep::Compact(plan)@ == step && final(self)@
                    == after_step(old(self)@, step)
            }),
    {
        let plan = match self.plan_compaction() {
            Ok(plan) => plan,
            Err(e) => {
                return Err(e);
            },
        };
        let step = WriteStep::Compact(plan);
        let applied = self.apply_step(&step);
        assert(applied is Ok);
        match step {
            WriteStep::Compact(plan) => Ok(plan),
            _ => Err(StoreError::InvalidStep),
        }
    }

    /// Gives up a compaction that failed before it was published: no compaction is
    /// in flight any more, and the index and open segments stay as they are, so the
    /// snapshot's segments keep serving reads. The target segment stays open and
    /// must be left empty by the caller.
    pub fn abort_compaction(&mut self)
        requires
            old(self).wf(),
        ensures
            final(self).wf(),
            final(self)@ == (EngineView { compacting: false, ..old(self)@ }),
    {
        self.compacting = false;
    }

    /// Records that `cmd`, whose framed bytes are `len` long, was appended at the
    /// end of the active segment: a `Put` moves its key there, a `Remove` forgets
    /// its key.
    pub fn commit(&mut self, cmd: Command, len: u64) -> (res: Result<(), StoreError>)
        requires
            old(self).wf(),
            len == encoding(cmd@).len(),
        ensures
            final(self).wf(),
            old(self)@.active_size as int + len as int <= u64::MAX ==> res is Ok && final(self)@
                == (EngineView {
                index: apply_record(
                    old(self)@.index,
                    cmd@,
                    old(self)@.current_generation,
                    old(self)@.active_size as nat,
                    len as nat,
                ),
                active_size: (old(self)@.active_size + len) as u64,
                ..old(self)@
            }),
            old(self)@.active_size as int + len as int > u64::MAX ==> res == Err::<(), StoreError>(
                StoreError::Exhausted,
            ) && final(self)@ == old(self)@,
    {
        if len > u64::MAX - self.active_size {
            return Err(StoreError::Exhausted);
        }
        match cmd {
            Command::Put { key, .. } => {
                self.index.insert(
                    key,
                    CommandPos { generation: self.current_generation, pos: self.active_size, len },
                );
            },
            Command::Remove { key } => {
                self.index.remove(&key);
            },
        }
        self.active_size = self.active_size + len;
        Ok(())
    }

    /// Where the live value of `key` is, if it has one.
    pub fn locate(&self, key: &Vec<u8>) -> (res: Result<Option<CommandPos>, StoreError>)
        requires
            self.wf(),
        ensures
            match self@.index.get(key@) {
                None => res == Ok::<Option<CommandPos>, StoreError>(None),
                Some(p) => if self@.generations.contains(p.generation) {
                    res == Ok::<Option<CommandPos>, StoreError>(Some(p))
                } else {
                    res == Err::<Option<CommandPos>, StoreError>(
                        StoreError::MissingSegment { generation: p.generation },
                    )
                },
            },
            res == Ok::<Option<CommandPos>, StoreError>(self@.index.get(key@)),
    {
        match self.index.lookup(key) {
            None => Ok(None),
            Some(p) => {
                if contains_u64(&self.generations, p.generation) {
                    Ok(Some(p))
                } else {
                    Err(StoreError::MissingSegment { generation: p.generation })
                }
            },
        }
    }

    /// Every location in the index lies in an open segment, so a lookup never
    /// meets a missing segment.
    pub proof fn lemma_index_segments_open(&self)
        requires
            self.wf(),
        ensures
            forall|k: Seq<u8>|
                #[trigger] self@.index.contains_key(k) ==> self@.generations.contains(
                    self@.index[k].generation,
                ),
    {
    }

    /// The open segments are in strictly ascending generation order, and the
    /// active segment is the newest of them.
    pub proof fn lemma_generations_ordered(&self)
        requires
            self.wf(),
        ensures
            strictly_ascending(self@.generations),
            self@.generations.len() > 0,
            self@.generations.last() == self@.current_generation,
            forall|i: int|
                0 <= i < self@.generations.len() ==> #[trigger] self@.generations[i]
                    <= self@.current_generation,
    {
        assert forall|i: int| 0 <= i < self@.generations.len() implies #[trigger] self@.generations[i]
            <= self@.current_generation by {
            if i < self@.generations.len() - 1 {
                assert(self@.generations[i] < self@.generations[self@.generations.len() - 1]);
            }
        }
    }

    /// Number of live keys.
    pub fn key_count(&self) -> (r: usize)
        requires
            self.wf(),
        ensures
            r == self@.index.len(),
    {
        self.index.len()
    }

    /// The generation that writes append to.
    pub fn current_generation(&self) -> (r: u64)
        ensures
            r == self@.current_generation,
    {
        self.current_generation
    }

    /// Bytes written to the active segment so far.
    pub fn active_size(&self) -> (r: u64)
        ensures
            r == self@.active_size,
    {
        self.active_size
    }

    /// The open segments, oldest first.
    pub fn generations(&self) -> (r: Vec<u64>)
        ensures
            r@ == self@.generations,
    {
        self.generations.clone()
    }

    /// Publishes a finished compaction, where `compaction_fits` holds: each moved
    /// key takes its new location only where the index still holds the location
    /// that was compacted, so a write made meanwhile is never overwritten. The
    /// snapshot's segments are closed; their generations are returned so that their
    /// files can be deleted. Otherwise `InvalidCompaction`, and nothing changes.
    pub fn finish_compaction(&mut self, plan: &CompactionPlan, moves: &Vec<Move>) -> (res: Result<
        Vec<u64>,
        StoreError,
    >)
        requires
            old(self).wf(),
        ensures
            final(self).wf(),
            !publishable(old(self)@, plan.target, moves@) ==> res == Err::<Vec<u64>, StoreError>(
                StoreError::InvalidCompaction,
            ) && final(self)@ == old(self)@,
            publishable(old(self)@, plan.target, moves@) ==> (res matches Ok(r) && {
                &&& final(self)@.index == published(old(self)@.index, moves_view(moves@))
                &&& final(self)@.generations == old(self)@.generations.subrange(
                    r@.len() as int,
                    old(self)@.generations.len() as int,
                )
                &&& r@.len() <= old(self)@.generations.len()
                &&& r@ == old(self)@.generations.subrange(0, r@.len() as int)
                &&& forall|x: int| 0 <= x < r@.len() ==> r@[x] < plan.target
                &&& forall|x: int|
                    0 <= x < final(self)@.generations.len() ==> final(self)@.generations[x]
                        >= plan.target
                &&& final(self)@.current_generation == old(self)@.current_generation
                &&& final(self)@.active_size == old(self)@.active_size
                &&& final(self)@.config == old(self)@.config
                &&& !final(self)@.compacting
            }),
    {
        if self.compaction_fits(plan, moves) {
            Ok(self.publish(plan, moves))
        } else {
            Err(StoreError::InvalidCompaction)
        }
    }

    /// Whether compaction results can be published: the target is an open
    /// segment no newer than the active one, every move lands in the target, keys
    /// move at most once, and every key located below the target has a move from
    /// its exact current location.
    pub fn compaction_fits(&self, plan: &CompactionPlan, moves: &Vec<Move>) -> (r: bool)
        requires
            self.wf(),
        ensures
            r == publishable(self@, plan.target, moves@),
    {
        let target = plan.target;
        if target > self.current_generation || !contains_u64(&self.generations, target) {
            return false;
        }
        let mut i: usize = 0;
        while i < moves.len()
            invariant
                target == plan.target,
                i <= moves@.len(),
                forall|a: int| 0 <= a < i ==> (#[trigger] moves@[a]).2.generation == target,
            decreases moves@.len() - i,
        {
            if moves[i].2.generation != target {
                assert(!(moves@[i as int].2.generation == target));
                return false;
            }
            i = i + 1;
        }
        let mut i: usize = 0;
        while i < moves.len()
            invariant
                target == plan.target,
                i <= moves@.len(),
                forall|a: int, b: int| 0 <= a < b < moves@.len() && a < i ==> moves@[a].0@ != moves@[b].0@,
            decreases moves@.len() - i,
        {
            let mut j: usize = i + 1;
            while j < moves.len()
                invariant
                    i < moves@.len(),
                    i + 1 <= j <= moves@.len(),
                    forall|a: int, b: int| 0 <= a < b < moves@.len() && a < i ==> moves@[a].0@ != moves@[b].0@,
                    forall|b: int| i < b < j ==> moves@[i as int].0@ != moves@[b].0@,
                decreases moves@.len() - j,
            {
                if bytes_eq(&moves[i].0, &moves[j].0) {
                    return false;
                }
                j = j + 1;
            }
            i = i + 1;
        }
        let entries = self.index.entries();
        let mut e: usize = 0;
        while e < entries.len()
            invariant
                target == plan.target,
                e <= entries@.len(),
                self.wf(),
                forall|a: int| 0 <= a < entries@.len() ==> self@.index.contains_key(#[trigger] entries@[a].0@) && self@.index[entries@[a].0@] == entries@[a].1,
                forall|a: int|
                    0 <= a < e && (#[trigger] entries@[a]).1.generation < target ==> exists|m: int|
                        0 <= m < moves@.len() && moves@[m].0@ == entries@[a].0@ && moves@[m].1
                            == entries@[a].1,
            decreases entries@.len() - e,
        {
            let pos = entries[e].1;
            if pos.generation < target {
                let found = has_move(moves, &entries[e].0, pos);
                if !found {
                    let ghost k = entries@[e as int].0@;
                    assert(self@.index.contains_key(k) && self@.index[k] == pos);
                    assert(self@.index.contains_key(k) && self@.index[k].generation < target);
                    return false;
                }
            }
            e = e + 1;
        }
        assert forall|k: Seq<u8>|
            #[trigger] self@.index.contains_key(k) && self@.index[k].generation < target implies exists|x: int|
                0 <= x < moves@.len() && moves@[x].0@ == k && moves@[x].1 == self@.index[k] by {
            let a = choose|a: int| 0 <= a < entries@.len() && #[trigger] entries@[a].0@ == k;
            assert(entries@[a].1.generation < target);
        }
        true
    }

    fn publish(&mut self, plan: &CompactionPlan, moves: &Vec<Move>) -> (r: Vec<u64>)
        requires
            old(self).wf(),
            publishable(old(self)@, plan.target, moves@),
        ensures
            final(self).wf(),
            final(self)@.index == published(old(self)@.index, moves_view(moves@)),
            final(self)@.generations == old(self)@.generations.subrange(
                r@.len() as int,
                old(self)@.generations.len() as int,
            ),
            r@.len() <= old(self)@.generations.len(),
            r@ == old(self)@.generations.subrange(0, r@.len() as int),
            forall|x: int| 0 <= x < r@.len() ==> r@[x] < plan.target,
            forall|x: int|
                0 <= x < final(self)@.generations.len() ==> final(self)@.generations[x]
                    >= plan.target,
            final(self)@.current_generation == old(self)@.current_generation,
            final(self)@.active_size == old(self)@.active_size,
            final(self)@.config == old(self)@.config,
            !final(self)@.compacting,
    {
        let mut i: usize = 0;
        while i < moves.len()
            invariant
                i <= moves@.len(),
                self.index.wf(),
                self.index@ == published(old(self)@.index, moves_view(moves@.subrange(0, i as int))),
                self.generations == old(self).generations,
                self.current_generation == old(self).current_generation,
                self.active_size == old(self).active_size,
                self.config == old(self).config,
            decreases moves@.len() - i,
        {
            let (key, from, to) = &moves[i];
            assert(moves_view(moves@.subrange(0, i + 1)).drop_last() =~= moves_view(moves@.subrange(0, i as int)));
            match self.index.lookup(key) {
                Some(p) => {
                    if p == *from {
                        self.index.insert(clone_bytes(key), *to);
                    }
                },
                None => {},
            }
            i = i + 1;
        }
        assert(moves@.subrange(0, moves@.len() as int) =~= moves@);
        let mut j: usize = 0;
        while j < self.generations.len() && self.generations[j] < plan.target
            invariant
                j <= self.generations@.len(),
                self.generations == old(self).generations,
                forall|x: int| 0 <= x < j ==> self.generations@[x] < plan.target,
            decreases self.generations@.len() - j,
        {
            j = j + 1;
        }
        let dropped = copy_u64s(&self.generations, 0, j);
        let kept = copy_u64s(&self.generations, j, self.generations.len());
        proof {
            let gs = self.generations@;
            let mv = moves_view(moves@);
            assert forall|a: int, b: int| 0 <= a < b < mv.len() implies mv[a].0 != mv[b].0 by {}
            lemma_published(old(self)@.index, mv);
            assert(j < gs.len()) by {
                assert(gs.last() == self.current_generation);
                if j == gs.len() {
                    assert(gs[gs.len() - 1] < plan.target);
                }
            }
            assert forall|k: Seq<u8>| #[trigger] self.index@.contains_key(k) implies kept@.contains(
                self.index@[k].generation,
            ) by {
                let m0 = old(self)@.index;
                assert(m0.contains_key(k));
                let _ = published(m0, mv)[k];
                if exists|i: int|
                    0 <= i < mv.len() && mv[i].0 == k && mv[i].1 == m0[k] && published(m0, mv)[k]
                        == mv[i].2 {
                    let i = choose|i: int|
                        0 <= i < mv.len() && mv[i].0 == k && mv[i].1 == m0[k] && published(m0, mv)[k]
                            == mv[i].2;
                    assert(moves@[i].2.generation == plan.target);
                    let t = choose|t: int| 0 <= t < gs.len() && gs[t] == plan.target;
                    if t < j {
                        assert(gs[t] < plan.target);
                    }
                    assert(kept@[t - j] == plan.target);
                } else {
                    let g = m0[k].generation;
                    if g < plan.target {
                        let i = choose|i: int|
                            0 <= i < moves@.len() && moves@[i].0@ == k && moves@[i].1 == m0[k];
                        assert(mv[i].0 == k && mv[i].1 == m0[k]);
                    }
                    let t = choose|t: int| 0 <= t < gs.len() && gs[t] == g;
                    if t < j {
                        assert(gs[t] < plan.target);
                    }
                    assert(kept@[t - j] == g);
                }
            }
        }
        self.generations = kept;
        self.compacting = false;
        dropped
    }
}

/// Publishing a compaction keeps the set of live keys. Each key keeps its location
/// unless the index still held the exact location that a move took it from; then
/// it takes that move's new location. So a key written after the snapshot, whose
/// location the compaction never saw, is left where the write put it.
pub proof fn lemma_published(
    m: Map<Seq<u8>, CommandPos>,
    moves: Seq<(Seq<u8>, CommandPos, CommandPos)>,
)
    requires
        forall|i: int, j: int| 0 <= i < j < moves.len() ==> moves[i].0 != moves[j].0,
    ensures
        published(m, moves).dom() == m.dom(),
        forall|k: Seq<u8>|
            #![trigger published(m, moves)[k]]
            m.contains_key(k) ==> {
                ||| (published(m, moves)[k] == m[k] && forall|i: int|
                    0 <= i < moves.len() && moves[i].0 == k ==> moves[i].1 != m[k])
                ||| exists|i: int|
                    0 <= i < moves.len() && moves[i].0 == k && moves[i].1 == m[k]
                        && published(m, moves)[k] == moves[i].2
            },
    decreases moves.len(),
{
    if moves.len() > 0 {
        let pre = moves.drop_last();
        lemma_published(m, pre);
        let p = published(m, pre);
        let (k0, from, to) = moves.last();
        let last = moves.len() - 1;
        assert(published(m, moves).dom() =~= m.dom());
        assert forall|k: Seq<u8>| #![trigger published(m, moves)[k]] m.contains_key(k) implies {
            ||| (published(m, moves)[k] == m[k] && forall|i: int|
                0 <= i < moves.len() && moves[i].0 == k ==> moves[i].1 != m[k])
            ||| exists|i: int|
                0 <= i < moves.len() && moves[i].0 == k && moves[i].1 == m[k]
                    && published(m, moves)[k] == moves[i].2
        } by {
            assert(p.contains_key(k));
            let _ = p[k];
            if k == k0 {
                assert forall|i: int| 0 <= i < pre.len() implies pre[i].0 != k by {
                    assert(moves[i] == pre[i]);
                }
                assert(p[k] == m[k]);
                if m[k] == from {
                    assert(moves[last].0 == k && moves[last].1 == m[k]);
                } else {
                    assert forall|i: int| 0 <= i < moves.len() && moves[i].0 == k implies moves[i].1
                        != m[k] by {
                        if i < last {
                            assert(moves[i] == pre[i]);
                        }
                    }
                }
            } else {
                assert(published(m, moves)[k] == p[k]);
                if exists|i: int|
                    0 <= i < pre.len() && pre[i].0 == k && pre[i].1 == m[k] && p[k] == pre[i].2 {
                    let i = choose|i: int|
                        0 <= i < pre.len() && pre[i].0 == k && pre[i].1 == m[k] && p[k] == pre[i].2;
                    assert(moves[i] == pre[i]);
                } else {
                    assert forall|i: int| 0 <= i < moves.len() && moves[i].0 == k implies moves[i].1
                        != m[k] by {
                        if i < last {
                            assert(moves[i] == pre[i]);
                        }
                    }
                }
            }
        }
    }
}

/// The number of bytes that record `c` takes in a segment.
#[verifier::opaque]
pub open spec fn record_len(c: CommandView) -> nat {
    encoding(c).len()
}

/// The state after one write of `c`: the step decided before it is taken, then the
/// record is appended to the active segment and committed.
pub open spec fn write_step(v: EngineView, c: CommandView) -> EngineView {
    let v1 = match next_step(v) {
        Some(s) => after_step(v, s),
        None => v,
    };
    EngineView {
        index: apply_record(
            v1.index,
            c,
            v1.current_generation,
            v1.active_size as nat,
            record_len(c),
        ),
        active_size: (v1.active_size + record_len(c)) as u64,
        ..v1
    }
}

/// The state after writing `cs` in order.
pub open spec fn write_all(v: EngineView, cs: Seq<CommandView>) -> EngineView
    decreases cs.len(),
{
    if cs.len() == 0 {
        v
    } else {
        write_step(write_all(v, cs.drop_last()), cs.last())
    }
}

/// The bytes that the records of `cs` take.
pub open spec fn total_len(cs: Seq<CommandView>) -> nat
    decreases cs.len(),
{
    if cs.len() == 0 {
        0
    } else {
        total_len(cs.drop_last()) + record_len(cs.last())
    }
}

/// Writes that stay under the split threshold never start a segment: after any
/// run of them whose records fit below the threshold, the open segments and the
/// active generation are those of before, and the active segment grew by exactly
/// their bytes.
pub proof fn lemma_small_writes_keep_one_segment(v: EngineView, cs: Seq<CommandView>)
    requires
        v.active_size + total_len(cs) <= v.config.split_threshold,
    ensures
        write_all(v, cs).generations == v.generations,
        write_all(v, cs).current_generation == v.current_generation,
        write_all(v, cs).active_size == v.active_size + total_len(cs),
        write_all(v, cs).config == v.config,
    decreases cs.len(),
{
    if cs.len() > 0 {
        let pre = cs.drop_last();
        let c = cs.last();
        let n = record_len(c);
        assert(total_len(cs) == total_len(pre) + n);
        lemma_small_writes_keep_one_segment(v, pre);
        let w = write_all(v, pre);
        assert(w.active_size <= w.config.split_threshold);
        assert(next_step(w) == Some(WriteStepView::Append));
        assert(after_step(w, WriteStepView::Append) == w);
    }
}

/// A write made while a compaction merges its snapshot survives the publish: a key
/// whose location lies in a generation newer than the compaction target keeps
/// that location, since every move starts from a location below the target.
pub proof fn lemma_newer_write_survives(
    m: Map<Seq<u8>, CommandPos>,
    moves: Seq<(Seq<u8>, CommandPos, CommandPos)>,
    target: u64,
    k: Seq<u8>,
)
    requires
        forall|i: int, j: int| 0 <= i < j < moves.len() ==> moves[i].0 != moves[j].0,
        forall|i: int| 0 <= i < moves.len() ==> (#[trigger] moves[i]).1.generation < target,
        m.contains_key(k),
        m[k].generation > target,
    ensures
        published(m, moves).contains_key(k),
        published(m, moves)[k] == m[k],
{
    lemma_published(m, moves);
    let _ = published(m, moves)[k];
}

/// A `Put` appended to the active segment and committed is what a later read of
/// its key finds: the index points at exactly its bytes, and they decode to the
/// value written. A `Remove` committed after it leaves the key absent.
#[verifier::rlimit(100)]
pub proof fn lemma_set_then_get(
    v: EngineView,
    active: Seq<u8>,
    key: Seq<u8>,
    value: Seq<u8>,
)
    requires
        (CommandView::Put { key, value }).encodable(),
        active.len() == v.active_size,
        active.len() + encoding(CommandView::Put { key, value }).len() <= u64::MAX,
    ensures
        ({
            let put = CommandView::Put { key, value };
            let e = encoding(put);
            let m = apply_record(v.index, put, v.current_generation, active.len(), e.len());
            let p = m[key];
            let log = active + e;
            &&& m.contains_key(key)
            &&& p == CommandPos {
                generation: v.current_generation,
                pos: active.len() as u64,
                len: e.len() as u64,
            }
            &&& parse(log.subrange(p.pos as int, p.pos + p.len)) == Some((put, p.len as nat))
            &&& !apply_record(
                m,
                CommandView::Remove { key },
                v.current_generation,
                log.len(),
                encoding(CommandView::Remove { key }).len(),
            ).contains_key(key)
        }),
{
    let put = CommandView::Put { key, value };
    let e = encoding(put);
    lemma_parse_encoding(put, Seq::empty());
    assert(e + Seq::<u8>::empty() =~= e);
    assert((active + e).subrange(active.len() as int, (active.len() + e.len()) as int) =~= e);
}

/// Of two `Put`s of one key, committed one after the other, a read finds the
/// second: the index points at its bytes, which decode to the second value.
#[verifier::rlimit(100)]
pub proof fn lemma_last_write_wins(
    v: EngineView,
    active: Seq<u8>,
    key: Seq<u8>,
    v1: Seq<u8>,
    v2: Seq<u8>,
)
    requires
        (CommandView::Put { key, value: v1 }).encodable(),
        (CommandView::Put { key, value: v2 }).encodable(),
        active.len() == v.active_size,
        active.len() + encoding(CommandView::Put { key, value: v1 }).len() + encoding(
            CommandView::Put { key, value: v2 },
        ).len() <= u64::MAX,
    ensures
        ({
            let e1 = encoding(CommandView::Put { key, value: v1 });
            let e2 = encoding(CommandView::Put { key, value: v2 });
            let m1 = apply_record(
                v.index,
                CommandView::Put { key, value: v1 },
                v.current_generation,
                active.len(),
                e1.len(),
            );
            let m2 = apply_record(
                m1,
                CommandView::Put { key, value: v2 },
                v.current_generation,
                active.len() + e1.len(),
                e2.len(),
            );
            let p = m2[key];
            let log = active + e1 + e2;
            parse(log.subrange(p.pos as int, p.pos + p.len)) == Some(
                (CommandView::Put { key, value: v2 }, p.len as nat),
            )
        }),
{
    let c2 = CommandView::Put { key, value: v2 };
    let e1 = encoding(CommandView::Put { key, value: v1 });
    let e2 = encoding(c2);
    lemma_parse_encoding(c2, Seq::empty());
    assert(e2 + Seq::<u8>::empty() =~= e2);
    let log = active + e1 + e2;
    let start: int = (active.len() + e1.len()) as int;
    assert(log.subrange(start, start + e2.len()) =~= e2);
}

/// The bytes of `cmd`: every key and value fits a record's 64-bit length prefix.
pub fn frame(cmd: &Command) -> (r: Vec<u8>)
    ensures
        cmd@.encodable(),
        r@ == encoding(cmd@),
{
    // A length is a `usize`, which always fits the 64-bit prefix.
    match cmd {
        Command::Put { key, value } => {
            let _ = key.len();
            let _ = value.len();
        },
        Command::Remove { key } => {
            let _ = key.len();
        },
    }
    encode(cmd)
}

proof fn lemma_push_keeps(s: Seq<u64>, x: u64)
    ensures
        forall|y: u64| s.contains(y) ==> #[trigger] s.push(x).contains(y),
{
    assert forall|y: u64| s.contains(y) implies #[trigger] s.push(x).contains(y) by {
        let i = choose|i: int| 0 <= i < s.len() && s[i] == y;
        assert(s.push(x)[i] == y);
    }
}

fn copy_u64s(v: &Vec<u64>, lo: usize, hi: usize) -> (r: Vec<u64>)
    requires
        lo <= hi <= v@.len(),
    ensures
        r@ == v@.subrange(lo as int, hi as int),
{
    let mut out: Vec<u64> = Vec::new();
    let mut i: usize = lo;
    while i < hi
        invariant
            lo <= i <= hi <= v@.len(),
            out@ == v@.subrange(lo as int, i as int),
        decreases hi - i,
    {
        out.push(v[i]);
        i = i + 1;
        assert(out@ =~= v@.subrange(lo as int, i as int));
    }
    out
}

fn has_move(moves: &Vec<Move>, key: &Vec<u8>, from: CommandPos) -> (r: bool)
    ensures
        r == exists|x: int| 0 <= x < moves@.len() && moves@[x].0@ == key@ && moves@[x].1 == from,
{
    let mut m: usize = 0;
    while m < moves.len()
        invariant
            m <= moves@.len(),
            forall|x: int| 0 <= x < m ==> !(moves@[x].0@ == key@ && moves@[x].1 == from),
        decreases moves@.len() - m,
    {
        if bytes_eq(&moves[m].0, key) && moves[m].1 == from {
            return true;
        }
        m = m + 1;
    }
    false
}

fn u64s_eq(a: &Vec<u64>, b: &Vec<u64>) -> (r: bool)
    ensures
        r == (a@ == b@),
{
    if a.len() != b.len() {
        return false;
    }
    let mut i: usize = 0;
    while i < a.len()
        invariant
            a@.len() == b@.len(),
            i <= a@.len(),
            forall|j: int| 0 <= j < i ==> a@[j] == b@[j],
        decreases a@.len() - i,
    {
        if a[i] != b[i] {
            return false;
        }
        i = i + 1;
    }
    assert(a@ =~= b@);
    true
}

fn contains_u64(v: &Vec<u64>, x: u64) -> (r: bool)
    ensures
        r == v@.contains(x),
{
    let mut i: usize = 0;
    while i < v.len()
        invariant
            i <= v@.len(),
            forall|j: int| 0 <= j < i ==> v@[j] != x,
        decreases v@.len() - i,
    {
        if v[i] == x {
            return true;
        }
        i = i + 1;
    }
    false
}

} // verus!
