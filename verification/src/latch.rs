//! The latch of a page frame: who may hold it together.
//!
//! A latch is held in one of three modes. `Shared` holders read together.
//! `WriteIntent` announces a writer: it is held beside the readers, by one
//! holder at a time, and only its holder can upgrade to `Exclusive`, once
//! the readers have left. Since there is never a second holder of
//! `WriteIntent`, two upgrades cannot wait for each other. `Exclusive` is
//! held alone.
//!
//! The latch decides; it does not wait. A caller that is refused waits and
//! asks again.

use vstd::prelude::*;

verus! {

/// The mode in which a latch is held.
#[derive(Clone, Copy, Debug, PartialEq, Eq, Structural)]
pub enum LatchMode {
    /// To read, beside other readers.
    Shared,
    /// To read now and write later, beside the readers.
    WriteIntent,
    /// To write, alone.
    Exclusive,
}

/// Who holds a latch: the number of `Shared` holders, and whether there is
/// a holder of `WriteIntent` or of `Exclusive`.
#[derive(Clone, Copy, Debug, PartialEq, Eq, Structural)]
pub struct Latch {
    /// Number of holders in `Shared`.
    pub shared: u32,
    /// Whether there is a holder in `WriteIntent`.
    pub intent: bool,
    /// Whether there is a holder in `Exclusive`.
    pub exclusive: bool,
}

impl Latch {
    /// An exclusive holder holds the latch alone.
    pub open spec fn wf(&self) -> bool {
        self.exclusive ==> self.shared == 0 && !self.intent
    }

    /// Nobody holds the latch.
    pub open spec fn is_free(&self) -> bool {
        self.shared == 0 && !self.intent && !self.exclusive
    }

    /// Number of holders, in whatever mode.
    pub open spec fn holders(&self) -> int {
        self.shared + if self.intent {
            1int
        } else {
            0int
        } + if self.exclusive {
            1int
        } else {
            0int
        }
    }

    /// A request for `mode` is granted in this state.
    pub open spec fn grants(&self, mode: LatchMode) -> bool {
        match mode {
            LatchMode::Shared => !self.exclusive && self.shared < u32::MAX,
            LatchMode::WriteIntent => !self.exclusive && !self.intent,
            LatchMode::Exclusive => self.is_free(),
        }
    }

    /// Somebody holds the latch in `mode`.
    pub open spec fn held_in(&self, mode: LatchMode) -> bool {
        match mode {
            LatchMode::Shared => self.shared > 0,
            LatchMode::WriteIntent => self.intent,
            LatchMode::Exclusive => self.exclusive,
        }
    }

    /// The state with one more holder in `mode`.
    pub open spec fn with_holder(&self, mode: LatchMode) -> Latch {
        match mode {
            LatchMode::Shared => Latch { shared: (self.shared + 1) as u32, ..*self },
            LatchMode::WriteIntent => Latch { intent: true, ..*self },
            LatchMode::Exclusive => Latch { exclusive: true, ..*self },
        }
    }

    /// The state with one holder in `mode` less.
    pub open spec fn without_holder(&self, mode: LatchMode) -> Latch {
        match mode {
            LatchMode::Shared => Latch { shared: (self.shared - 1) as u32, ..*self },
            LatchMode::WriteIntent => Latch { intent: false, ..*self },
            LatchMode::Exclusive => Latch { exclusive: false, ..*self },
        }
    }

    /// The holder of `WriteIntent` can upgrade: it is the only holder left.
    pub open spec fn can_upgrade(&self) -> bool {
        self.intent && self.shared == 0 && !self.exclusive
    }

    /// A latch that nobody holds.
    pub fn new() -> (latch: Latch)
        ensures
            latch.is_free(),
            latch.wf(),
    {
        Latch { shared: 0, intent: false, exclusive: false }
    }

    /// Asks for the latch in `mode`. Returns whether it was granted; when
    /// it was not, nothing changes.
    pub fn try_acquire(&mut self, mode: LatchMode) -> (granted: bool)
        requires
            old(self).wf(),
        ensures
            final(self).wf(),
            granted == old(self).grants(mode),
            granted ==> *final(self) == old(self).with_holder(mode),
            !granted ==> *final(self) == *old(self),
    {
        match mode {
            LatchMode::Shared => {
                if self.exclusive || self.shared == u32::MAX {
                    return false;
                }
                self.shared = self.shared + 1;
            },
            LatchMode::WriteIntent => {
                if self.exclusive || self.intent {
                    return false;
                }
                self.intent = true;
            },
            LatchMode::Exclusive => {
                if self.exclusive || self.intent || self.shared != 0 {
                    return false;
                }
                self.exclusive = true;
            },
        }
        true
    }

    /// Gives up one hold in `mode`. Returns whether there was such a hold;
    /// when there was none, nothing changes.
    pub fn release(&mut self, mode: LatchMode) -> (released: bool)
        requires
            old(self).wf(),
        ensures
            final(self).wf(),
            released == old(self).held_in(mode),
            released ==> *final(self) == old(self).without_holder(mode),
            !released ==> *final(self) == *old(self),
    {
        match mode {
            LatchMode::Shared => {
                if self.shared == 0 {
                    return false;
                }
                self.shared = self.shared - 1;
            },
            LatchMode::WriteIntent => {
                if !self.intent {
                    return false;
                }
                self.intent = false;
            },
            LatchMode::Exclusive => {
                if !self.exclusive {
                    return false;
                }
                self.exclusive = false;
            },
        }
        true
    }

    /// Turns the hold in `WriteIntent` into a hold in `Exclusive`. Returns
    /// whether it did; when it did not, nothing changes.
    pub fn try_upgrade(&mut self) -> (upgraded: bool)
        requires
            old(self).wf(),
        ensures
            final(self).wf(),
            upgraded == old(self).can_upgrade(),
            upgraded ==> *final(self) == (Latch { shared: 0, intent: false, exclusive: true }),
            !upgraded ==> *final(self) == *old(self),
    {
        if !self.intent || self.shared != 0 || self.exclusive {
            return false;
        }
        self.intent = false;
        self.exclusive = true;
        true
    }
}

/// While the latch is held in `Exclusive`, no request is granted and no
/// upgrade succeeds: nobody else gets in until the holder lets go.
pub proof fn lemma_exclusive_excludes(latch: Latch, mode: LatchMode)
    requires
        latch.wf(),
        latch.exclusive,
    ensures
        !latch.grants(mode),
        !latch.can_upgrade(),
{
}

/// `Exclusive` is granted, by request or by upgrade, only to a holder that
/// is then alone; and a second `WriteIntent` is never granted beside the
/// first.
pub proof fn lemma_exclusive_is_alone(latch: Latch)
    requires
        latch.wf(),
    ensures
        latch.grants(LatchMode::Exclusive) ==> latch.with_holder(LatchMode::Exclusive) == (Latch {
            shared: 0,
            intent: false,
            exclusive: true,
        }),
        latch.intent ==> !latch.grants(LatchMode::WriteIntent),
{
}

} // verus!
