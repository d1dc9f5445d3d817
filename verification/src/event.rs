//! The event that reports the result of a request, and the status that
//! answers the delivery of the request.

use crate::analysis::SentimentCounts;
use crate::ideas::IdeaItem;
use vstd::prelude::*;

verus! {

/// The status of a request that could not be read.
pub const BAD_REQUEST: u16 = 400;

/// The status of a request whose result could not be published.
pub const INTERNAL_SERVER_ERROR: u16 = 500;

/// The status of a request whose result was published.
pub const ACCEPTED: u16 = 202;

/// The status that answers a request: a request that could not be read is
/// a bad request, whatever came after; one whose result could not be
/// published is an error of the service; any other is accepted.
pub fn response_status(parsed: bool, published: bool) -> (status: u16)
    ensures
        status == if !parsed {
            BAD_REQUEST
        } else if !published {
            INTERNAL_SERVER_ERROR
        } else {
            ACCEPTED
        },
{
    if !parsed {
        BAD_REQUEST
    } else if !published {
        INTERNAL_SERVER_ERROR
    } else {
        ACCEPTED
    }
}

/// What a result repeats of its request.
#[derive(Debug, Clone)]
pub struct RequestIdentity {
    pub job_id: String,
    pub form_id: String,
    pub snapshot_id: String,
    pub window_key: String,
    pub question_id: String,
    pub analysis_hash: String,
}

/// The event that reports the result of a request.
#[derive(Debug, Clone)]
pub struct ResultEvent {
    pub job_id: String,
    pub form_id: String,
    pub snapshot_id: String,
    pub window_key: String,
    pub question_id: String,
    pub analysis_hash: String,
    /// Whether the answers were analysed and the analysis was stored.
    pub success: bool,
    pub top_ideas: Vec<IdeaItem>,
    /// The number of answers with each label; none after a failure.
    pub sentiment: Option<SentimentCounts>,
    /// What went wrong; none after a success.
    pub analysis_error: Option<String>,
    pub last_enriched_at: String,
    pub model_version: String,
}

impl ResultEvent {
    /// The event repeats the six identifiers of `request`.
    pub open spec fn answers(&self, request: &RequestIdentity) -> bool {
        &&& self.job_id == request.job_id
        &&& self.form_id == request.form_id
        &&& self.snapshot_id == request.snapshot_id
        &&& self.window_key == request.window_key
        &&& self.question_id == request.question_id
        &&& self.analysis_hash == request.analysis_hash
    }

    /// The event after a success: it holds the ideas and the counts of the
    /// labels, and no error.
    pub fn succeeded(
        request: &RequestIdentity,
        top_ideas: Vec<IdeaItem>,
        sentiment: SentimentCounts,
        last_enriched_at: String,
        model_version: String,
    ) -> (event: ResultEvent)
        ensures
            event.answers(request),
            event.success,
            event.top_ideas == top_ideas,
            event.sentiment == Some(sentiment),
            event.analysis_error is None,
            event.last_enriched_at == last_enriched_at,
            event.model_version == model_version,
    {
        ResultEvent {
            job_id: request.job_id.clone(),
            form_id: request.form_id.clone(),
            snapshot_id: request.snapshot_id.clone(),
            window_key: request.window_key.clone(),
            question_id: request.question_id.clone(),
            analysis_hash: request.analysis_hash.clone(),
            success: true,
            top_ideas,
            sentiment: Some(sentiment),
            analysis_error: None,
            last_enriched_at,
            model_version,
        }
    }

    /// The event after a failure: it holds the error, and neither ideas nor
    /// counts.
    pub fn failed(
        request: &RequestIdentity,
        error: String,
        last_enriched_at: String,
        model_version: String,
    ) -> (event: ResultEvent)
        ensures
            event.answers(request),
            !event.success,
            event.top_ideas@.len() == 0,
            event.sentiment is None,
            event.analysis_error == Some(error),
            event.last_enriched_at == last_enriched_at,
            event.model_version == model_version,
    {
        ResultEvent {
            job_id: request.job_id.clone(),
            form_id: request.form_id.clone(),
            snapshot_id: request.snapshot_id.clone(),
            window_key: request.window_key.clone(),
            question_id: request.question_id.clone(),
            analysis_hash: request.analysis_hash.clone(),
            success: false,
            top_ideas: Vec::new(),
            sentiment: None,
            analysis_error: Some(error),
            last_enriched_at,
            model_version,
        }
    }
}

} // verus!
