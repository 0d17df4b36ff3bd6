//! The order in which the steps of a row are attempted.
//!
//! The steps are attempted in passes: every identity in turn, then the
//! queries. A pass in which some step made progress is followed by another
//! one, because what one step found may be what an earlier step was waiting
//! for. The sequence ends after a pass without progress. It is for the user
//! of the sequence to see that progress cannot be made for ever.

use vstd::prelude::*;

verus! {

/// One step of a pass.
#[derive(Clone, Copy, Debug, PartialEq, Eq, Structural)]
pub enum Step {
    /// Attempt the identity with this index.
    Identity(usize),
    /// Ask the queries of the columns that are still open.
    Queries,
}

pub struct SequenceIterator {
    /// The number of identities.
    pub identities: usize,
    /// The next identity of the current pass.
    pub position: usize,
    /// Whether the queries of the current pass have been asked.
    pub queried: bool,
    /// Whether a step of the current pass has made progress.
    pub progress: bool,
}

impl SequenceIterator {
    pub open spec fn wf(&self) -> bool {
        &&& self.position <= self.identities
        &&& self.queried ==> self.position == self.identities
    }

    /// The number of steps that are left of the current pass.
    pub open spec fn steps_left(&self) -> nat {
        ((self.identities - self.position) + if self.queried {
            0int
        } else {
            1int
        }) as nat
    }

    /// The step that comes next, if the sequence has not ended.
    pub open spec fn upcoming(&self) -> Option<Step> {
        if self.position < self.identities {
            Some(Step::Identity(self.position))
        } else if !self.queried {
            Some(Step::Queries)
        } else if self.progress {
            if self.identities > 0 {
                Some(Step::Identity(0))
            } else {
                Some(Step::Queries)
            }
        } else {
            None
        }
    }

    /// The sequence after the next step is taken from it.
    pub open spec fn advanced(&self) -> SequenceIterator {
        if self.position < self.identities {
            SequenceIterator { position: (self.position + 1) as usize, ..*self }
        } else if !self.queried {
            SequenceIterator { queried: true, ..*self }
        } else if self.progress {
            if self.identities > 0 {
                SequenceIterator { position: 1, queried: false, progress: false, ..*self }
            } else {
                SequenceIterator { progress: false, ..*self }
            }
        } else {
            *self
        }
    }

    /// A sequence of passes over the identities and the queries, at the
    /// start of its first pass.
    pub fn new(identities: usize) -> (r: SequenceIterator)
        ensures
            r.wf(),
            r == (SequenceIterator { identities, position: 0, queried: false, progress: false }),
    {
        SequenceIterator { identities, position: 0, queried: false, progress: false }
    }

    /// Tells the sequence that the step it yielded last has made progress.
    pub fn report_progress(&mut self)
        ensures
            *final(self) == (SequenceIterator { progress: true, ..*old(self) }),
    {
        self.progress = true;
    }

    /// The next step to attempt: the next of the current pass, or the first
    /// of a new pass where the current one is over and has made progress.
    /// `None` ends the sequence: the pass is over and has made no progress.
    pub fn next(&mut self) -> (r: Option<Step>)
        requires
            old(self).wf(),
        ensures
            final(self).wf(),
            r == old(self).upcoming(),
            *final(self) == old(self).advanced(),
            match r {
                Some(Step::Identity(i)) => i < old(self).identities,
                _ => true,
            },
    {
        if self.position < self.identities {
            let step: usize = self.position;
            self.position = self.position + 1;
            Some(Step::Identity(step))
        } else if !self.queried {
            self.queried = true;
            Some(Step::Queries)
        } else if self.progress {
            self.progress = false;
            if self.identities > 0 {
                self.position = 1;
                self.queried = false;
                Some(Step::Identity(0))
            } else {
                Some(Step::Queries)
            }
        } else {
            None
        }
    }
}

} // verus!
