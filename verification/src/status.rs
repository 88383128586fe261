//! Commitment status of a slot, and decoding of the raw wire code.

use vstd::prelude::*;

verus! {

/// Confirmation strength reported for a slot, totally ordered:
/// `Processed < Confirmed < Finalized`. A slot's status only ever
/// moves upward along this order.
#[derive(Clone, Copy, Debug, PartialEq, Eq, Structural)]
pub enum CommitmentStatus {
    Processed,
    Confirmed,
    Finalized,
}

/// The only error the tracker raises: an update carried a status code
/// that does not map to any [`CommitmentStatus`]. Such an update is
/// discarded and the tracker state is left unchanged.
#[derive(Clone, Copy, Debug, PartialEq, Eq, Structural)]
pub enum UpdateError {
    InvalidStatus,
}

impl CommitmentStatus {
    /// Position of this status in the `Processed < Confirmed < Finalized` order.
    pub open spec fn rank(self) -> int {
        match self {
            CommitmentStatus::Processed => 0,
            CommitmentStatus::Confirmed => 1,
            CommitmentStatus::Finalized => 2,
        }
    }

    /// The join (maximum) of two statuses under the commitment order.
    pub open spec fn spec_join(self, other: CommitmentStatus) -> CommitmentStatus {
        if self.rank() >= other.rank() {
            self
        } else {
            other
        }
    }

    /// Which raw wire codes decode to a known status.
    pub open spec fn spec_of_code(code: i32) -> Option<CommitmentStatus> {
        if code == 0 {
            Some(CommitmentStatus::Processed)
        } else if code == 1 {
            Some(CommitmentStatus::Confirmed)
        } else if code == 2 {
            Some(CommitmentStatus::Finalized)
        } else {
            None
        }
    }

    /// Decode the raw status code carried by a slot notification.
    /// Codes 0, 1, 2 stand for Processed, Confirmed, Finalized; every
    /// other code is rejected with [`UpdateError::InvalidStatus`].
    pub fn from_code(code: i32) -> (r: Result<CommitmentStatus, UpdateError>)
        ensures
            r == match Self::spec_of_code(code) {
                Some(s) => Result::<CommitmentStatus, UpdateError>::Ok(s),
                None => Result::<CommitmentStatus, UpdateError>::Err(UpdateError::InvalidStatus),
            },
    {
        if code == 0 {
            Ok(CommitmentStatus::Processed)
        } else if code == 1 {
            Ok(CommitmentStatus::Confirmed)
        } else if code == 2 {
            Ok(CommitmentStatus::Finalized)
        } else {
            Err(UpdateError::InvalidStatus)
        }
    }

    /// Join two statuses: the result is the stronger of the two.
    /// Used by the merge rule, which never lets a status decrease.
    pub fn join(self, other: CommitmentStatus) -> (r: CommitmentStatus)
        ensures
            r == self.spec_join(other),
    {
        match (self, other) {
            (CommitmentStatus::Finalized, _) => CommitmentStatus::Finalized,
            (_, CommitmentStatus::Finalized) => CommitmentStatus::Finalized,
            (CommitmentStatus::Confirmed, _) => CommitmentStatus::Confirmed,
            (_, CommitmentStatus::Confirmed) => CommitmentStatus::Confirmed,
            _ => CommitmentStatus::Processed,
        }
    }
}

} // verus!
