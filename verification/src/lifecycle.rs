//! The resource model of a split connection's descriptor: after an owned
//! split the two halves share responsibility for closing it; dropping the
//! write half sends a write shutdown, forgetting it does not, and the
//! descriptor itself is closed only once both shares are gone.

use vstd::prelude::*;

verus! {

/// The close-tracking state of one connection's descriptor after an
/// owned split.
pub struct SplitState {
    /// Whether the read half still holds its share.
    pub read_live: bool,
    /// Whether the write half still holds its share.
    pub write_live: bool,
    /// Whether a write shutdown has been sent on the connection.
    pub shutdown_sent: bool,
}

impl SplitState {
    /// Whether the read half still holds its share.
    pub open spec fn spec_read_live(&self) -> bool {
        self.read_live
    }

    /// Whether the write half still holds its share.
    pub open spec fn spec_write_live(&self) -> bool {
        self.write_live
    }

    /// Whether a write shutdown has been sent on the connection.
    pub open spec fn spec_shutdown_sent(&self) -> bool {
        self.shutdown_sent
    }

    /// Whether the descriptor has been closed: only once neither half
    /// holds a share any more.
    pub open spec fn spec_closed(&self) -> bool {
        !self.spec_read_live() && !self.spec_write_live()
    }

    /// The state right after an owned split: both halves live, nothing
    /// shut down, descriptor open.
    pub open spec fn spec_split() -> SplitState {
        SplitState { read_live: true, write_live: true, shutdown_sent: false }
    }

    /// Releasing the read half's share.
    pub open spec fn spec_after_drop_read(self) -> SplitState {
        SplitState { read_live: false, ..self }
    }

    /// Dropping the write half: its share is released and a write
    /// shutdown is sent.
    pub open spec fn spec_after_drop_write(self) -> SplitState {
        SplitState { write_live: false, shutdown_sent: true, ..self }
    }

    /// Forgetting the write half: its share is released with no shutdown;
    /// closing becomes the read half's sole responsibility.
    pub open spec fn spec_after_forget_write(self) -> SplitState {
        SplitState { write_live: false, ..self }
    }

    /// An owned split begins with both halves live.
    pub fn split() -> (r: Self)
        ensures
            r == Self::spec_split(),
    {
        SplitState { read_live: true, write_live: true, shutdown_sent: false }
    }

    /// The read half is dropped.
    pub fn drop_read(&mut self)
        requires
            old(self).spec_read_live(),
        ensures
            *final(self) == old(self).spec_after_drop_read(),
    {
        self.read_live = false;
    }

    /// The write half is dropped without having been forgotten.
    pub fn drop_write(&mut self)
        requires
            old(self).spec_write_live(),
        ensures
            *final(self) == old(self).spec_after_drop_write(),
    {
        self.write_live = false;
        self.shutdown_sent = true;
    }

    /// The write half is forgotten.
    pub fn forget_write(&mut self)
        requires
            old(self).spec_write_live(),
        ensures
            *final(self) == old(self).spec_after_forget_write(),
    {
        self.write_live = false;
    }

    /// Whether the descriptor has been closed.
    pub fn is_closed(&self) -> (r: bool)
        ensures
            r == self.spec_closed(),
    {
        !self.read_live && !self.write_live
    }
}

/// Owned-split shared closing: dropping only the write half leaves the
/// descriptor open while the read half remains; dropping both closes it.
pub proof fn lemma_owned_split_shared_closing()
    ensures
        !SplitState::spec_split().spec_after_drop_write().spec_closed(),
        SplitState::spec_split().spec_after_drop_write().spec_after_drop_read().spec_closed(),
{
}

/// Forget semantics: forgetting the write half never sends a shutdown,
/// and the read half alone then determines final closure.
pub proof fn lemma_forget_semantics()
    ensures
        !SplitState::spec_split().spec_after_forget_write().spec_shutdown_sent(),
        !SplitState::spec_split().spec_after_forget_write().spec_closed(),
        SplitState::spec_split().spec_after_forget_write().spec_after_drop_read().spec_closed(),
        !SplitState::spec_split().spec_after_forget_write().spec_after_drop_read()
            .spec_shutdown_sent(),
{
}

} // verus!
