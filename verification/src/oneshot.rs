//! One-shot evaluation of a query over a vault, without a server: the merged
//! document, or the rows that the query endpoint would give.

use vstd::prelude::*;

use crate::doctor;
use crate::fragments;
use crate::query;
use crate::query::{MergeError, ParsedQuery, QueryData, QueryError, QueryResponse};
use crate::store;
use crate::store::NoteStore;
use crate::text;
use crate::vault;
use crate::vault::{NoteData, ScanData, ScanIssue, ScanResult, WalkItem};

verus! {

/// Why a one-shot evaluation came to nothing.
#[derive(Debug)]
pub enum OneshotError {
    /// The query string was refused.
    Query(QueryError),
    /// Files could not be read or turned into notes.
    Scan(Vec<ScanIssue>),
    /// The guard on the kind of the notes refused the merge.
    Kind(String),
}

/// How an evaluation that came to nothing reads: the query error, the files at
/// fault under a line that names the subcommand, or what the guard says.
pub open spec fn failure_text(e: OneshotError, subcommand: Seq<char>) -> Seq<char> {
    match e {
        OneshotError::Query(q) => query::error_text(q@) + "\n"@,
        OneshotError::Scan(issues) => subcommand + ": cannot read vault\n"@ + text::joined(
            doctor::issue_lines(vault::issues_data(issues@)),
            ""@,
        ),
        OneshotError::Kind(message) => message@,
    }
}

impl OneshotError {
    /// How the error reads, for the subcommand that met it.
    pub fn render(&self, subcommand: &str) -> (r: String)
        ensures
            r@ == failure_text(*self, subcommand@),
    {
        match self {
            OneshotError::Query(q) => text::concat(q.message().as_str(), "\n"),
            OneshotError::Scan(issues) => {
                let mut out = text::concat(subcommand, ": cannot read vault\n");
                out.append(text::join(&doctor::write_issue_lines(issues), "").as_str());
                out
            },
            OneshotError::Kind(message) => message.clone(),
        }
    }
}

/// The notes that a scan puts into a fresh store.
pub open spec fn loaded(scan: ScanData) -> Map<Seq<char>, NoteData> {
    store::all_upserted(Map::empty(), scan.notes)
}

/// Whether an error is one that stops a one-shot evaluation before it starts:
/// the query is refused, or else the scan met files that it could not turn
/// into notes.
pub open spec fn load_failed(e: OneshotError, scan: ScanData, raw: Seq<char>) -> bool {
    match query::parsed(raw) {
        Err(d) => e matches OneshotError::Query(q) && q@ == d,
        Ok(_) => scan.issues.len() > 0 && (e matches OneshotError::Scan(issues)
            && vault::issues_data(issues@) == scan.issues),
    }
}

/// Whether nothing stops a one-shot evaluation before it starts.
pub open spec fn can_load(scan: ScanData, raw: Seq<char>) -> bool {
    query::parsed(raw) is Ok && scan.issues.len() == 0
}

/// Parses a query and puts the notes of a scan into a fresh store. The doubles
/// that values read as come from `read`.
pub fn load<F>(scan: ScanResult, raw_query: &str, read: F) -> (r: Result<
    (ParsedQuery, NoteStore),
    OneshotError,
>) where F: Fn(&str) -> Option<u64>
    requires
        forall|s: &str| #[trigger] call_requires(read, (s,)),
    ensures
        match r {
            Ok((q, notes)) => can_load(scan@, raw_query@) && query::numbers_filled(
                q@,
                query::parsed(raw_query@)->Ok_0,
                read,
            ) && notes@ == loaded(scan@),
            Err(e) => load_failed(e, scan@, raw_query@),
        },
{
    let parsed = match query::parse_reading(raw_query, read) {
        Ok(q) => q,
        Err(e) => {
            return Err(OneshotError::Query(e));
        },
    };
    if scan.issues.len() > 0 {
        return Err(OneshotError::Scan(scan.issues));
    }
    let mut notes = NoteStore::new();
    notes.replace(scan.notes);
    Ok((parsed, notes))
}

/// Whether a result is what the merge of these notes gives: the document, or
/// the refusal of the guard.
pub open spec fn gives(
    r: Result<String, OneshotError>,
    m: Map<Seq<char>, NoteData>,
    q: QueryData,
) -> bool {
    match r {
        Ok(doc) => !query::merge_refused(m, q) && query::is_merge(doc@, m, q),
        Err(e) => query::merge_refused(m, q) && (e matches OneshotError::Kind(message)
            && message@ == fragments::guard_refusal(
            q.kind_key->0,
            query::matched_fragments(m, q),
        )),
    }
}

/// Whether a result is what a one-shot merge of a scan gives.
pub open spec fn merge_outcome<F: Fn(&str) -> Option<u64>>(
    r: Result<String, OneshotError>,
    scan: ScanData,
    raw: Seq<char>,
    read: F,
) -> bool {
    if can_load(scan, raw) {
        exists|q: QueryData| #[trigger]
            query::numbers_filled(q, query::parsed(raw)->Ok_0, read) && gives(r, loaded(scan), q)
    } else {
        r matches Err(e) && load_failed(e, scan, raw)
    }
}

/// Evaluates a query over a walk through the vault, and gives the merged
/// document.
pub fn merge<F>(vault_root: &[u8], walk: Vec<WalkItem>, raw_query: &str, read: F) -> (r: Result<
    String,
    OneshotError,
>) where F: Fn(&str) -> Option<u64>
    requires
        forall|s: &str| #[trigger] call_requires(read, (s,)),
    ensures
        merge_outcome(
            r,
            vault::scanned(vault_root@, vault::walk_data(walk@)),
            raw_query@,
            read,
        ),
{
    match load(vault::scan(vault_root, walk), raw_query, read) {
        Ok((parsed, notes)) => match query::execute_merge(&notes, &parsed) {
            Ok(doc) => Ok(doc),
            Err(MergeError::KindGuard(message)) => Err(OneshotError::Kind(message)),
        },
        Err(e) => Err(e),
    }
}

/// Evaluates a query over a walk through the vault, and gives the rows that the
/// query endpoint gives for the same notes.
pub fn query_json<F>(vault_root: &[u8], walk: Vec<WalkItem>, raw_query: &str, read: F) -> (r:
    Result<QueryResponse, OneshotError>) where F: Fn(&str) -> Option<u64>
    requires
        forall|s: &str| #[trigger] call_requires(read, (s,)),
    ensures
        ({
            let scan = vault::scanned(vault_root@, vault::walk_data(walk@));
            match r {
                Ok(response) => can_load(scan, raw_query@) && exists|q: QueryData| #[trigger]
                    query::numbers_filled(q, query::parsed(raw_query@)->Ok_0, read)
                        && query::answers(response, loaded(scan), q, query::rfc3339_z),
                Err(e) => load_failed(e, scan, raw_query@),
            }
        }),
{
    match load(vault::scan(vault_root, walk), raw_query, read) {
        Ok((parsed, notes)) => Ok(query::execute(&notes, &parsed, query::rfc3339_z)),
        Err(e) => Err(e),
    }
}

/// A one-shot merge fails with the query's error exactly if the query string is
/// refused, and with the scan's issues exactly if it is taken and the scan has
/// some: the query is judged first.
pub proof fn one_shot_refusals<F: Fn(&str) -> Option<u64>>(
    r: Result<String, OneshotError>,
    scan: ScanData,
    raw: Seq<char>,
    read: F,
)
    requires
        merge_outcome(r, scan, raw, read),
    ensures
        (r matches Err(OneshotError::Query(_))) <==> query::parsed(raw) is Err,
        r matches Err(OneshotError::Query(e)) ==> e@ == query::parsed(raw)->Err_0,
        (r matches Err(OneshotError::Scan(_))) <==> query::parsed(raw) is Ok && scan.issues.len()
            > 0,
        r matches Err(OneshotError::Scan(issues)) ==> vault::issues_data(issues@) == scan.issues,
{
}

/// A one-shot merge that neither the query nor the scan stops gives what the
/// merge gives that the server runs, over the same notes and for the same
/// query: the same document, or the same refusal.
pub proof fn one_shot_merge_is_the_served_one(
    r: Result<String, OneshotError>,
    served: Result<String, MergeError>,
    m: Map<Seq<char>, NoteData>,
    q: QueryData,
)
    requires
        gives(r, m, q),
        query::merges(served, m, q),
    ensures
        match served {
            Ok(doc) => r matches Ok(d) && d@ == doc@,
            Err(MergeError::KindGuard(message)) => r matches Err(OneshotError::Kind(m)) && m@
                == message@,
        },
{
}

/// A failure names what failed: the query's error, every file at fault with
/// what is the matter, or what the guard says.
pub proof fn failures_name_what_failed(e: OneshotError, subcommand: Seq<char>, i: int)
    ensures
        match e {
            OneshotError::Query(q) => text::is_within(
                query::error_text(q@),
                failure_text(e, subcommand),
            ),
            OneshotError::Scan(issues) => text::is_within(subcommand, failure_text(e, subcommand))
                && (0 <= i < issues@.len() ==> text::is_within(
                doctor::issue_lines(vault::issues_data(issues@))[i],
                failure_text(e, subcommand),
            )),
            OneshotError::Kind(message) => failure_text(e, subcommand) == message@,
        },
{
    let none = Seq::<char>::empty();
    let all = failure_text(e, subcommand);
    match e {
        OneshotError::Query(q) => {
            text::within_by(none, query::error_text(q@), "\n"@);
            assert(none + query::error_text(q@) + "\n"@ =~= all);
        },
        OneshotError::Scan(issues) => {
            let lines = doctor::issue_lines(vault::issues_data(issues@));
            let head = subcommand + ": cannot read vault\n"@;
            let body = text::joined(lines, ""@);
            text::within_by(none, subcommand, ": cannot read vault\n"@ + body);
            assert(none + subcommand + (": cannot read vault\n"@ + body) =~= all);
            if 0 <= i < issues@.len() {
                text::joined_holds_each(lines, ""@, i);
                text::within_more(lines[i], body, head, none);
                assert(head + body + none =~= all);
            }
        },
        OneshotError::Kind(message) => {},
    }
}

/// A scan that is put into a fresh store holds the last note of each path that
/// it found, and nothing else.
pub proof fn scans_are_loaded_whole(scan: ScanData, path: Seq<char>, i: int)
    ensures
        loaded(scan).contains_key(path) ==> exists|k: int|
            0 <= k < scan.notes.len() && (#[trigger] scan.notes[k]).path == path,
        (0 <= i < scan.notes.len() && scan.notes[i].path == path && forall|j: int|
            i < j < scan.notes.len() ==> (#[trigger] scan.notes[j]).path != path) ==> loaded(
            scan,
        ).contains_key(path) && loaded(scan)[path] == scan.notes[i],
{
    store::the_note_put_in_last_is_held(
        Map::<Seq<char>, NoteData>::empty(),
        scan.notes,
        path,
        i,
    );
}

/// The rows of a one-shot query are given exactly if the query string is taken
/// and every file could be turned into a note; the guard on the kind of the
/// notes has no say in them.
pub proof fn one_shot_rows_are_refused_alike<F: Fn(&str) -> Option<u64>>(
    vault_root: &[u8],
    walk: Vec<WalkItem>,
    raw: &str,
    read: F,
    r: Result<QueryResponse, OneshotError>,
)
    requires
        call_ensures(query_json::<F>, (vault_root, walk, raw, read), r),
    ensures
        ({
            let scan = vault::scanned(vault_root@, vault::walk_data(walk@));
            &&& r is Ok <==> query::parsed(raw@) is Ok && scan.issues.len() == 0
            &&& (r matches Err(OneshotError::Query(_))) <==> query::parsed(raw@) is Err
            &&& (r matches Err(OneshotError::Scan(_))) <==> query::parsed(raw@) is Ok
                && scan.issues.len() > 0
            &&& r matches Err(OneshotError::Scan(issues)) ==> vault::issues_data(issues@)
                == scan.issues
        }),
{
}

}
