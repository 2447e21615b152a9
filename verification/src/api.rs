//! What the route answers to a request for a summary.

use crate::summarizer::SummarizationError;
use vstd::prelude::*;

verus! {

/// The status of an answer that carries a summary.
pub const STATUS_OK: u16 = 200;

/// The status of an answer to a request that failed.
pub const STATUS_INTERNAL_SERVER_ERROR: u16 = 500;

/// The answer to a request: the status, and the summary where there is one.
#[derive(Debug)]
pub struct Reply {
    pub status: u16,
    pub body: Option<String>,
}

/// The answer of the route to what came back from the actor, `None` standing
/// for a request that never reached it.
///
/// A summary is answered with status 200 and the summary as the body. Every
/// failure, of the run or of the dispatch, is answered with status 500 and no
/// body, so that nothing of the failure is told.
pub fn summarize_route(result: Option<Result<String, SummarizationError>>) -> (reply: Reply)
    ensures
        result matches Some(Ok(summary)) ==> reply.status == STATUS_OK && reply.body == Some(
            summary,
        ),
        !(result matches Some(Ok(_))) ==> reply.status == STATUS_INTERNAL_SERVER_ERROR
            && reply.body is None,
{
    match result {
        Some(Ok(summary)) => Reply { status: STATUS_OK, body: Some(summary) },
        _ => Reply { status: STATUS_INTERNAL_SERVER_ERROR, body: None },
    }
}

} // verus!
