use crate::ids::{DelayId, ExecutionId, JoinSetId};
use vstd::prelude::*;

verus! {

/// Position of an event in an execution's log.
pub type Version = u32;

/// A point in time, in milliseconds since the Unix epoch.
pub type Millis = i64;

/// How a finished execution ended.
#[derive(Clone, Copy, Debug, PartialEq, Eq, Structural)]
pub enum FinishedResult {
    Succeeded,
    FallibleError,
    ExecutionFailure,
}

/// What a join-set request asked for.
#[derive(Debug)]
pub enum JoinSetRequestKind {
    ChildExecutionRequest { child_execution_id: ExecutionId },
    DelayRequest { delay_id: DelayId },
}

/// The payload of an execution event.
#[derive(Debug)]
pub enum EventKind {
    Created { scheduled_at: Millis },
    Locked { lock_expires_at: Millis },
    Unlocked,
    TemporarilyFailed,
    TemporarilyTimedOut,
    Finished { result: FinishedResult },
    JoinSetCreated { join_set_id: JoinSetId },
    JoinSetRequest { join_set_id: JoinSetId, request: JoinSetRequestKind },
    JoinNext { join_set_id: JoinSetId },
    JoinNextTry { join_set_id: JoinSetId },
    JoinNextTooMany { join_set_id: JoinSetId },
    /// Any other event: the logic here does not read it.
    Other,
}

/// One entry of an execution's log.
#[derive(Debug)]
pub struct ExecutionEvent {
    pub version: Version,
    pub created_at: Millis,
    pub backtrace_id: Option<Version>,
    pub event: EventKind,
}

/// What arrived on a join set.
#[derive(Debug)]
pub enum JoinSetResponse {
    ChildExecutionFinished { child_execution_id: ExecutionId, result: FinishedResult },
    DelayFinished { delay_id: DelayId },
}

impl Clone for JoinSetResponse {
    fn clone(&self) -> (r: Self)
        ensures
            r == *self,
    {
        match self {
            JoinSetResponse::ChildExecutionFinished { child_execution_id, result } => {
                JoinSetResponse::ChildExecutionFinished {
                    child_execution_id: child_execution_id.clone(),
                    result: *result,
                }
            },
            JoinSetResponse::DelayFinished { delay_id } => {
                JoinSetResponse::DelayFinished { delay_id: delay_id.clone() }
            },
        }
    }
}

/// A response recorded on one join set of an execution.
#[derive(Debug)]
pub struct JoinSetResponseEvent {
    pub created_at: Millis,
    pub join_set_id: JoinSetId,
    pub response: JoinSetResponse,
}

impl Clone for JoinSetResponseEvent {
    fn clone(&self) -> (r: Self)
        ensures
            r == *self,
    {
        JoinSetResponseEvent {
            created_at: self.created_at,
            join_set_id: self.join_set_id.clone(),
            response: self.response.clone(),
        }
    }
}

/// A response as a page delivers it, with its position in the response stream.
#[derive(Debug)]
pub struct ResponseWithCursor {
    pub cursor: u32,
    pub event: JoinSetResponseEvent,
}

/// Where an execution stands, as the server reports it with each page.
#[derive(Debug)]
pub enum ExecutionStatus {
    /// Held by a worker, until the lock expires.
    Locked { lock_expires_at: Option<Millis> },
    /// Waiting to be picked up at the given time.
    PendingAt { scheduled_at: Option<Millis> },
    /// Waiting for a response on a join set.
    BlockedByJoinSet { join_set_id: JoinSetId },
    /// Done, with its result.
    Finished { result: FinishedResult },
}

impl Clone for ExecutionStatus {
    fn clone(&self) -> (r: Self)
        ensures
            r == *self,
    {
        match self {
            ExecutionStatus::Locked { lock_expires_at } => ExecutionStatus::Locked {
                lock_expires_at: *lock_expires_at,
            },
            ExecutionStatus::PendingAt { scheduled_at } => ExecutionStatus::PendingAt {
                scheduled_at: *scheduled_at,
            },
            ExecutionStatus::BlockedByJoinSet { join_set_id } => ExecutionStatus::BlockedByJoinSet {
                join_set_id: join_set_id.clone(),
            },
            ExecutionStatus::Finished { result } => ExecutionStatus::Finished { result: *result },
        }
    }
}

/// Whether an event is the terminal `Finished` event.
pub open spec fn is_finished_event(e: ExecutionEvent) -> bool {
    e.event is Finished
}

/// The join set that a `JoinNext` or `JoinNextTry` event waits on.
pub open spec fn awaited_join_set(e: ExecutionEvent) -> Option<(crate::ids::JoinSetKind, Seq<char>)> {
    match e.event {
        EventKind::JoinNext { join_set_id } => Some(join_set_id@),
        EventKind::JoinNextTry { join_set_id } => Some(join_set_id@),
        _ => None,
    }
}

/// The child execution that a `JoinSetRequest` event asked for.
pub open spec fn requested_child(e: ExecutionEvent) -> Option<Seq<char>> {
    match e.event {
        EventKind::JoinSetRequest {
            request: JoinSetRequestKind::ChildExecutionRequest { child_execution_id },
            ..
        } => Some(child_execution_id@),
        _ => None,
    }
}

/// The child execution whose completion a response reports.
pub open spec fn finished_child(r: JoinSetResponseEvent) -> Option<Seq<char>> {
    match r.response {
        JoinSetResponse::ChildExecutionFinished { child_execution_id, .. } => Some(
            child_execution_id@,
        ),
        _ => None,
    }
}

/// The responses of `rs` that belong to join set `j`, in arrival order.
pub open spec fn responses_on(rs: Seq<JoinSetResponseEvent>, j: (crate::ids::JoinSetKind, Seq<char>)) -> Seq<
    JoinSetResponseEvent,
>
    decreases rs.len(),
{
    if rs.len() == 0 {
        seq![]
    } else if rs.last().join_set_id@ == j {
        responses_on(rs.drop_last(), j).push(rs.last())
    } else {
        responses_on(rs.drop_last(), j)
    }
}

impl ExecutionEvent {
    pub fn is_finished(&self) -> (r: bool)
        ensures
            r == is_finished_event(*self),
    {
        match &self.event {
            EventKind::Finished { .. } => true,
            _ => false,
        }
    }

    /// The join set this event waits on, when it is a `JoinNext` or `JoinNextTry`.
    pub fn awaited_join_set(&self) -> (r: Option<&JoinSetId>)
        ensures
            match r {
                None => awaited_join_set(*self) is None,
                Some(j) => awaited_join_set(*self) == Some(j@),
            },
    {
        match &self.event {
            EventKind::JoinNext { join_set_id } => Some(join_set_id),
            EventKind::JoinNextTry { join_set_id } => Some(join_set_id),
            _ => None,
        }
    }

    /// The child execution this event requested, when it is a child request.
    pub fn requested_child(&self) -> (r: Option<&ExecutionId>)
        ensures
            match r {
                None => requested_child(*self) is None,
                Some(c) => requested_child(*self) == Some(c@),
            },
    {
        match &self.event {
            EventKind::JoinSetRequest {
                request: JoinSetRequestKind::ChildExecutionRequest { child_execution_id },
                ..
            } => Some(child_execution_id),
            _ => None,
        }
    }
}

impl JoinSetResponseEvent {
    /// The child execution whose completion this response reports.
    pub fn finished_child(&self) -> (r: Option<&ExecutionId>)
        ensures
            match r {
                None => finished_child(*self) is None,
                Some(c) => finished_child(*self) == Some(c@),
            },
    {
        match &self.response {
            JoinSetResponse::ChildExecutionFinished { child_execution_id, .. } => Some(
                child_execution_id,
            ),
            _ => None,
        }
    }
}

} // verus!
