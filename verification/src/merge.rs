//! One-shot merge of a vault, without a server.

use vstd::prelude::*;

use crate::oneshot;
use crate::oneshot::OneshotError;
use crate::query::QueryError;
use crate::vault;
use crate::vault::{ScanIssue, WalkItem};

verus! {

/// Why a one-shot merge came to nothing.
#[derive(Debug)]
pub enum MergeCliError {
    /// The query string was refused.
    Query(QueryError),
    /// Files could not be read or turned into notes.
    Scan(Vec<ScanIssue>),
    /// The guard on the kind of the notes refused the merge.
    Kind(String),
}

/// The same error of the shared one-shot evaluation.
pub open spec fn as_oneshot(e: MergeCliError) -> OneshotError {
    match e {
        MergeCliError::Query(q) => OneshotError::Query(q),
        MergeCliError::Scan(issues) => OneshotError::Scan(issues),
        MergeCliError::Kind(message) => OneshotError::Kind(message),
    }
}

impl MergeCliError {
    /// How the error reads.
    pub fn render(&self) -> (r: String)
        ensures
            r@ == oneshot::failure_text(as_oneshot(*self), "merge"@),
    {
        match self {
            MergeCliError::Query(q) => crate::text::concat(q.message().as_str(), "\n"),
            MergeCliError::Scan(issues) => {
                let mut out = crate::text::concat("merge", ": cannot read vault\n");
                out.append(
                    crate::text::join(&crate::doctor::write_issue_lines(issues), "").as_str(),
                );
                out
            },
            MergeCliError::Kind(message) => message.clone(),
        }
    }
}

/// A result with its error as that of a one-shot evaluation.
pub open spec fn as_oneshot_result(r: Result<String, MergeCliError>) -> Result<
    String,
    OneshotError,
> {
    match r {
        Ok(doc) => Ok(doc),
        Err(e) => Err(as_oneshot(e)),
    }
}

/// Evaluates a query over a walk through the vault, and gives the merged
/// document.
pub fn run<F>(vault_root: &[u8], walk: Vec<WalkItem>, raw_query: &str, read: F) -> (r: Result<
    String,
    MergeCliError,
>) where F: Fn(&str) -> Option<u64>
    requires
        forall|s: &str| #[trigger] call_requires(read, (s,)),
    ensures
        oneshot::merge_outcome(
            as_oneshot_result(r),
            vault::scanned(vault_root@, vault::walk_data(walk@)),
            raw_query@,
            read,
        ),
{
    match oneshot::merge(vault_root, walk, raw_query, read) {
        Ok(doc) => Ok(doc),
        Err(OneshotError::Query(q)) => Err(MergeCliError::Query(q)),
        Err(OneshotError::Scan(issues)) => Err(MergeCliError::Scan(issues)),
        Err(OneshotError::Kind(message)) => Err(MergeCliError::Kind(message)),
    }
}

/// An error of the merge is the same error of the shared evaluation.
pub proof fn errors_stay_what_they_are(e: MergeCliError)
    ensures
        match e {
            MergeCliError::Query(q) => as_oneshot(e) == OneshotError::Query(q),
            MergeCliError::Scan(issues) => as_oneshot(e) == OneshotError::Scan(issues),
            MergeCliError::Kind(message) => as_oneshot(e) == OneshotError::Kind(message),
        },
{
}

}
