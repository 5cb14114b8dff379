//! Optimistic concurrency: what becomes of an attempted write.

use vstd::prelude::*;
use crate::model::ContentId;
use crate::text::opt_view;

verus! {

/// What to do with an attempted write.
#[derive(Debug, PartialEq, Eq)]
pub enum CommitDecision {
    /// Nothing was there and nothing was expected.
    Create,
    /// The head moves from the expected hash to the incoming one.
    Update,
    /// The incoming content is what is already there.
    NoChange,
    /// The head is not what the writer read.
    Conflict(Conflict),
}

/// The data a client needs to read again, reapply and retry.
#[derive(Debug, Clone, Copy, PartialEq, Eq)]
pub struct Conflict {
    /// What the writer believed to be there.
    pub expected: Option<ContentId>,
    /// What is there.
    pub current: Option<ContentId>,
    /// What the writer wanted to leave there.
    pub incoming: ContentId,
}

/// Mathematical counterpart of [`Conflict`].
pub struct ConflictModel {
    pub expected: Option<Seq<u8>>,
    pub current: Option<Seq<u8>>,
    pub incoming: Seq<u8>,
}

/// Mathematical counterpart of [`CommitDecision`].
pub enum DecisionModel {
    Create,
    Update,
    NoChange,
    Conflict(ConflictModel),
}

impl View for Conflict {
    type V = ConflictModel;

    open spec fn view(&self) -> ConflictModel {
        ConflictModel {
            expected: opt_view(self.expected),
            current: opt_view(self.current),
            incoming: self.incoming@,
        }
    }
}

impl View for CommitDecision {
    type V = DecisionModel;

    open spec fn view(&self) -> DecisionModel {
        match *self {
            CommitDecision::Create => DecisionModel::Create,
            CommitDecision::Update => DecisionModel::Update,
            CommitDecision::NoChange => DecisionModel::NoChange,
            CommitDecision::Conflict(c) => DecisionModel::Conflict(c@),
        }
    }
}

/// A write goes through only on the head its author read; a write of what is
/// already there changes nothing; anything else is a conflict.
pub open spec fn decision(
    head: Option<Seq<u8>>,
    expected: Option<Seq<u8>>,
    incoming: Seq<u8>,
) -> DecisionModel {
    if head == Some(incoming) {
        DecisionModel::NoChange
    } else if head != expected {
        DecisionModel::Conflict(ConflictModel { expected, current: head, incoming })
    } else if head is None {
        DecisionModel::Create
    } else {
        DecisionModel::Update
    }
}

/// Decides the fate of a commit from the current head, the hash the writer
/// declares to have read, and the hash of what it wants to write.
pub fn decide(
    head: Option<ContentId>,
    expected: Option<ContentId>,
    incoming: ContentId,
) -> (r: CommitDecision)
    ensures
        r@ == decision(opt_view(head), opt_view(expected), incoming@),
{
    match (head, expected) {
        (None, None) => CommitDecision::Create,
        (None, Some(_)) => CommitDecision::Conflict(Conflict { expected, current: None, incoming }),
        (Some(cur), None) => {
            if cur.same(&incoming) {
                CommitDecision::NoChange
            } else {
                CommitDecision::Conflict(Conflict { expected: None, current: head, incoming })
            }
        },
        (Some(cur), Some(exp)) => {
            if cur.same(&incoming) {
                CommitDecision::NoChange
            } else if cur.same(&exp) {
                CommitDecision::Update
            } else {
                CommitDecision::Conflict(Conflict { expected, current: head, incoming })
            }
        },
    }
}

/// No write is lost: a head that the writer did not read is never replaced.
pub proof fn law_no_lost_update(
    head: Option<Seq<u8>>,
    expected: Option<Seq<u8>>,
    incoming: Seq<u8>,
)
    requires
        head != expected,
    ensures
        !(decision(head, expected, incoming) is Create),
        !(decision(head, expected, incoming) is Update),
{
}

/// Writing what is already there is never a conflict, whatever was expected.
pub proof fn law_identical_write_is_no_change(expected: Option<Seq<u8>>, incoming: Seq<u8>)
    ensures
        decision(Some(incoming), expected, incoming) is NoChange,
{
}

} // verus!
