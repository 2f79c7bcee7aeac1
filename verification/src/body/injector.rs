//! The curriculum: the learning stage advances with time or on instruction,
//! and stage 3 brings a tutor's voice into the organism's senses.

use vstd::prelude::*;

verus! {

/// What the curriculum file said on a tick.
#[derive(Debug, Clone, Copy, PartialEq, Eq, Structural)]
pub enum StageFile {
    /// The file could not be read (usually: there is none).
    Unreadable,
    /// The file was read but holds no stage.
    Malformed,
    /// The file sets this stage.
    Stage(usize),
}

/// The stage after a tick numbered `ticks` (counted from 1): an instructed
/// stage is taken as it is; without a readable file the stage advances by one
/// every hundred ticks up to 7; a malformed file changes nothing.
pub open spec fn next_stage(stage: nat, ticks: nat, file: StageFile) -> nat {
    match file {
        StageFile::Stage(s) => s as nat,
        StageFile::Malformed => stage,
        StageFile::Unreadable => if ticks % 100 == 0 && stage < 7 { stage + 1 } else { stage },
    }
}

/// The injector of curriculum stimuli.
pub struct SignalInjector {
    memory_dir: String,
    curriculum_stage: usize,
    ticks: usize,
}

impl SignalInjector {
    /// The stage, between 1 and 7.
    pub closed spec fn stage(&self) -> nat {
        self.curriculum_stage as nat
    }

    /// The ticks taken so far.
    pub closed spec fn tick_count(&self) -> nat {
        self.ticks as nat
    }

    /// The memory directory.
    pub closed spec fn memory_dir_spec(&self) -> Seq<char> {
        self.memory_dir@
    }

    /// The stage stays within 1 ..= 7.
    pub closed spec fn wf(&self) -> bool {
        1 <= self.curriculum_stage <= 7
    }

    /// An injector at stage 1 that has taken no tick, over the absolute `memory_dir`.
    pub fn new(memory_dir: String) -> (inj: Self)
        requires
            seq!['/'].is_prefix_of(memory_dir@),
        ensures
            inj.wf(),
            inj.stage() == 1,
            inj.tick_count() == 0,
            inj.memory_dir_spec() == memory_dir@,
    {
        SignalInjector { memory_dir, curriculum_stage: 1, ticks: 0 }
    }

    /// The current stage.
    pub fn get_curriculum_stage(&self) -> (s: usize)
        ensures
            s == self.stage(),
    {
        self.curriculum_stage
    }

    /// The memory directory.
    pub fn memory_dir(&self) -> (d: &str)
        ensures
            d@ == self.memory_dir_spec(),
    {
        self.memory_dir.as_str()
    }

    /// Takes a tick given what the curriculum file said, and tells whether the
    /// tutor's stimulus is to be injected this tick (at stage 3).
    pub fn inject_signals(&mut self, file: StageFile) -> (inject_tutor: bool)
        requires
            old(self).wf(),
            old(self).tick_count() < usize::MAX,
            file matches StageFile::Stage(s) ==> 1 <= s <= 7,
        ensures
            final(self).wf(),
            final(self).tick_count() == old(self).tick_count() + 1,
            final(self).stage() == next_stage(old(self).stage(), final(self).tick_count(), file),
            final(self).memory_dir_spec() == old(self).memory_dir_spec(),
            inject_tutor == (final(self).stage() == 3),
    {
        self.ticks = self.ticks + 1;
        match file {
            StageFile::Stage(s) => {
                self.curriculum_stage = s;
            },
            StageFile::Malformed => {},
            StageFile::Unreadable => {
                if self.ticks % 100 == 0 && self.curriculum_stage < 7 {
                    self.curriculum_stage = self.curriculum_stage + 1;
                }
            },
        }
        self.curriculum_stage == 3
    }
}

/// The curriculum file has the last word: a stage it sets is taken as it
/// is, above or below the current one; a malformed file changes nothing;
/// without a file the stage climbs by exactly one on every hundredth tick
/// until it reaches 7, and otherwise stays.
pub proof fn lemma_curriculum_rules(stage: nat, ticks: nat, file: StageFile)
    ensures
        file matches StageFile::Stage(s) ==> next_stage(stage, ticks, file) == s,
        file == StageFile::Malformed ==> next_stage(stage, ticks, file) == stage,
        file == StageFile::Unreadable ==> (next_stage(stage, ticks, file) == stage
            || next_stage(stage, ticks, file) == stage + 1),
        file == StageFile::Unreadable ==> (next_stage(stage, ticks, file) == stage + 1 <==> (ticks % 100 == 0 && stage < 7)),
{
}

} // verus!
