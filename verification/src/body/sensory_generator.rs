//! The frame clock of the synthetic senses.

use vstd::prelude::*;

verus! {

/// The generator of synthetic stimuli, counting the frames it produced.
pub struct SensoryGenerator {
    memory_dir: String,
    frame_count: u64,
}

impl SensoryGenerator {
    /// Frames produced so far.
    pub closed spec fn frames(&self) -> nat {
        self.frame_count as nat
    }

    /// The memory directory.
    pub closed spec fn memory_dir_spec(&self) -> Seq<char> {
        self.memory_dir@
    }

    /// A generator over the absolute `memory_dir` that has produced no frame.
    pub fn new(memory_dir: String) -> (g: Self)
        requires
            seq!['/'].is_prefix_of(memory_dir@),
        ensures
            g.frames() == 0,
            g.memory_dir_spec() == memory_dir@,
    {
        SensoryGenerator { memory_dir, frame_count: 0 }
    }

    /// The memory directory.
    pub fn memory_dir(&self) -> (d: &str)
        ensures
            d@ == self.memory_dir_spec(),
    {
        self.memory_dir.as_str()
    }

    /// Starts the next frame and returns its number (the first is 1); the
    /// caller derives the frame's stimuli from it.
    pub fn next_frame(&mut self) -> (frame: u64)
        requires
            old(self).frames() < u64::MAX,
        ensures
            final(self).frames() == old(self).frames() + 1,
            frame == final(self).frames(),
            final(self).memory_dir_spec() == old(self).memory_dir_spec(),
    {
        self.frame_count = self.frame_count + 1;
        self.frame_count
    }
}

} // verus!
