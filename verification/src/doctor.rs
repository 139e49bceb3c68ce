//! The vault check: what a scan could not read, what it found odd, frontmatter
//! keys whose type drifts, and paths that more than one file lays claim to.

use vstd::prelude::*;

use crate::drift;
use crate::lists;
use crate::numbers;
use crate::outside;
use crate::sorted;
use crate::sorted::SortedMap;
use crate::text;
use crate::vault;
use crate::vault::{
    IssueData, NoteData, ScanData, ScanIssue, ScanResult, ScanWarning, WalkItem, WarningData,
    WarningKindData,
};

verus! {

/// A path that several notes have, and how many.
#[derive(Debug, PartialEq)]
pub struct PathCollision {
    pub path: String,
    pub count: usize,
}

/// What a [`PathCollision`] says.
#[verifier::ext_equal]
pub struct CollisionData {
    pub path: Seq<char>,
    pub count: nat,
}

impl View for PathCollision {
    type V = CollisionData;

    open spec fn view(&self) -> CollisionData {
        CollisionData { path: self.path@, count: self.count as nat }
    }
}

/// What a list of collisions says.
pub open spec fn collisions_data(v: Seq<PathCollision>) -> Seq<CollisionData> {
    v.map_values(|c: PathCollision| c@)
}

/// What the check found.
#[derive(Debug)]
pub struct Report {
    pub note_count: usize,
    pub issues: Vec<ScanIssue>,
    pub warnings: Vec<ScanWarning>,
    pub path_collisions: Vec<PathCollision>,
}

/// What a [`Report`] says.
#[verifier::ext_equal]
pub struct ReportData {
    pub note_count: nat,
    pub issues: Seq<IssueData>,
    pub warnings: Seq<WarningData>,
    pub path_collisions: Seq<CollisionData>,
}

impl View for Report {
    type V = ReportData;

    open spec fn view(&self) -> ReportData {
        ReportData {
            note_count: self.note_count as nat,
            issues: vault::issues_data(self.issues@),
            warnings: vault::warnings_data(self.warnings@),
            path_collisions: collisions_data(self.path_collisions@),
        }
    }
}

/// Whether a report holds nothing to complain of.
pub open spec fn clean(r: ReportData) -> bool {
    r.issues.len() == 0 && r.warnings.len() == 0 && r.path_collisions.len() == 0
}

impl Report {
    /// Whether the check found nothing to complain of.
    pub fn is_clean(&self) -> (r: bool)
        ensures
            r == clean(self@),
    {
        self.issues.len() == 0 && self.warnings.len() == 0 && self.path_collisions.len() == 0
    }
}

/// How often a text occurs in a list.
pub open spec fn occurrences(s: Seq<Seq<char>>, x: Seq<char>) -> nat
    decreases s.len(),
{
    if s.len() == 0 {
        0
    } else {
        occurrences(s.drop_last(), x) + if s.last() == x {
            1nat
        } else {
            0nat
        }
    }
}

/// Whether a text occurs more than once in a list.
pub open spec fn collides(s: Seq<Seq<char>>) -> spec_fn(Seq<char>) -> bool {
    |x: Seq<char>| occurrences(s, x) > 1
}

/// The texts that occur more than once, in ascending order, with how often
/// each does.
pub open spec fn collisions(s: Seq<Seq<char>>) -> Seq<CollisionData> {
    sorted::ascending(s.to_set()).filter(collides(s)).map_values(
        |x: Seq<char>| CollisionData { path: x, count: occurrences(s, x) },
    )
}

/// A text occurs in a list if it occurs there at least once, and no more often
/// than the list is long.
pub proof fn occurrences_bounds(s: Seq<Seq<char>>, x: Seq<char>)
    ensures
        occurrences(s, x) <= s.len(),
        occurrences(s, x) > 0 <==> s.contains(x),
    decreases s.len(),
{
    if s.len() > 0 {
        let rest = s.drop_last();
        occurrences_bounds(rest, x);
        assert(s =~= rest.push(s.last()));
        lists::push_contains(rest, s.last(), x);
    }
}

/// Finds the paths that more than one note has.
pub fn detect_path_collisions(paths: &Vec<String>) -> (r: Vec<PathCollision>)
    ensures
        collisions_data(r@) == collisions(text::views(paths@)),
{
    let ghost all = text::views(paths@);
    let mut counts: SortedMap<usize> = SortedMap::new();
    let mut i: usize = 0;
    while i < paths.len()
        invariant
            i <= paths@.len(),
            all == text::views(paths@),
            forall|x: Seq<char>| #[trigger]
                counts@.contains_key(x) <==> occurrences(all.take(i as int), x) > 0,
            forall|x: Seq<char>| #[trigger]
                counts@.contains_key(x) ==> counts@[x] == occurrences(all.take(i as int), x),
        decreases paths@.len() - i,
    {
        let p = &paths[i];
        let ghost prev = all.take(i as int);
        let ghost next = all.take(i + 1);
        proof {
            assert(next.drop_last() =~= prev);
            assert(next.last() == p@);
            occurrences_bounds(prev, p@);
        }
        let count: usize = match counts.get(p.as_str()) {
            Some(c) => *c,
            None => 0,
        };
        counts.insert(p.clone(), count + 1);
        i += 1;
    }
    assert(all.take(i as int) =~= all);
    let n: usize = counts.len();
    let ghost keys = sorted::ascending(counts@.dom());
    let ghost pred = collides(all);
    proof {
        assert forall|x: Seq<char>| counts@.dom().contains(x) <==> all.to_set().contains(x) by {
            occurrences_bounds(all, x);
            assert(counts@.contains_key(x) <==> occurrences(all, x) > 0);
        }
        assert(counts@.dom() =~= all.to_set());
        reveal(Seq::filter);
        assert(keys.take(0).filter(pred) =~= seq![]);
    }
    let mut out: Vec<PathCollision> = Vec::new();
    let mut j: usize = 0;
    while j < n
        invariant
            j <= n == keys.len(),
            keys == sorted::ascending(counts@.dom()),
            sorted::lists(keys, counts@.dom()),
            pred == collides(all),
            forall|x: Seq<char>| #[trigger]
                counts@.contains_key(x) ==> counts@[x] == occurrences(all, x),
            out@.len() == keys.take(j as int).filter(pred).len(),
            forall|k: int|
                0 <= k < out@.len() ==> (#[trigger] out@[k])@ == (CollisionData {
                    path: keys.take(j as int).filter(pred)[k],
                    count: occurrences(all, keys.take(j as int).filter(pred)[k]),
                }),
        decreases n - j,
    {
        let ghost key = keys[j as int];
        proof {
            assert(keys.contains(key));
            assert(counts@.contains_key(key));
            reveal(Seq::filter);
            assert(keys.take(j + 1).drop_last() =~= keys.take(j as int));
            assert(keys.take(j + 1).last() == key);
        }
        let count: usize = *counts.value_at(j);
        if count > 1 {
            out.push(PathCollision { path: counts.key_at(j).clone(), count });
        }
        j += 1;
    }
    assert(keys.take(n as int) =~= keys);
    assert(collisions_data(out@) =~= collisions(all));
    out
}

/// The paths of notes.
pub open spec fn note_paths(notes: Seq<NoteData>) -> Seq<Seq<char>> {
    notes.map_values(|n: NoteData| n.path)
}

/// What the check makes of a scan. The keys that drift are reported as warnings,
/// behind those of the scan.
pub open spec fn report_of(scan: ScanData) -> ReportData {
    ReportData {
        note_count: scan.notes.len(),
        issues: scan.issues,
        warnings: scan.warnings + drift::drift_warnings(scan.notes),
        path_collisions: collisions(note_paths(scan.notes)),
    }
}

/// Checks what a scan found.
pub fn examine(scan: ScanResult) -> (r: Report)
    ensures
        r@ == report_of(scan@),
        clean(r@) ==> forall|key: Seq<char>| !#[trigger] drift::drifts(scan@.notes, key),
{
    let mut paths: Vec<String> = Vec::new();
    let mut i: usize = 0;
    while i < scan.notes.len()
        invariant
            i <= scan.notes@.len(),
            paths@.len() == i,
            forall|j: int| 0 <= j < i ==> (#[trigger] paths@[j])@ == scan.notes@[j].path@,
        decreases scan.notes@.len() - i,
    {
        paths.push(scan.notes[i].path.clone());
        i += 1;
    }
    assert(text::views(paths@) =~= note_paths(scan@.notes));
    let mut drift = drift::detect_drift(&scan.notes);
    let ghost drifting = drift::drifting(scan@.notes);
    let ghost drift_warnings = drift::drift_warnings(scan@.notes);
    let note_count: usize = scan.notes.len();
    let mut warnings = scan.warnings;
    warnings.append(&mut drift);
    let report = Report {
        note_count,
        path_collisions: detect_path_collisions(&paths),
        issues: scan.issues,
        warnings,
    };
    proof {
        assert(report@.warnings =~= scan@.warnings + drift_warnings);
        if clean(report@) {
            assert forall|key: Seq<char>| !#[trigger] drift::drifts(scan@.notes, key) by {
                assert(drift_warnings.len() == 0);
                assert(!sorted::ascending(drifting).contains(key));
                assert(!drifting.contains(key));
            }
        }
    }
    report
}

/// Checks what a walk through the vault comes to.
pub fn run(vault_root: &[u8], walk: Vec<WalkItem>) -> (r: Report)
    ensures
        r@ == report_of(vault::scanned(vault_root@, vault::walk_data(walk@))),
        clean(r@) ==> forall|key: Seq<char>|
            !#[trigger] drift::drifts(
                vault::scanned(vault_root@, vault::walk_data(walk@)).notes,
                key,
            ),
{
    examine(vault::scan(vault_root, walk))
}

/// A line that names a file and says something of it.
pub open spec fn path_line(path: Seq<u8>, said: Seq<char>) -> Seq<char> {
    "  "@ + outside::lossy(path) + ": "@ + said + "\n"@
}

/// A line for each issue.
pub open spec fn issue_lines(issues: Seq<IssueData>) -> Seq<Seq<char>> {
    issues.map_values(|i: IssueData| path_line(i.path, vault::issue_text(i.kind)))
}

/// A line for each warning.
pub open spec fn warning_lines(warnings: Seq<WarningData>) -> Seq<Seq<char>> {
    warnings.map_values(|w: WarningData| path_line(w.path, vault::warning_text(w.kind)))
}

/// A line that names a collision.
pub open spec fn collision_line(c: CollisionData) -> Seq<char> {
    "  "@ + c.path + " ("@ + numbers::int_text(c.count as int) + " files)\n"@
}

/// A line for each collision.
pub open spec fn collision_lines(v: Seq<CollisionData>) -> Seq<Seq<char>> {
    v.map_values(|c: CollisionData| collision_line(c))
}

/// A titled block of lines; nothing if there are no lines.
pub open spec fn block(title: Seq<char>, lines: Seq<Seq<char>>) -> Seq<char> {
    if lines.len() == 0 {
        seq![]
    } else {
        title + text::joined(lines, ""@)
    }
}

/// The head of the report: the vault, and how much was found of each.
pub open spec fn heading(root: Seq<u8>, r: ReportData) -> Seq<char> {
    "anwesen doctor: "@ + outside::lossy(root) + "\n  notes:           "@ + numbers::int_text(
        r.note_count as int,
    ) + "\n  issues:          "@ + numbers::int_text(r.issues.len() as int)
        + "\n  warnings:        "@ + numbers::int_text(r.warnings.len() as int)
        + "\n  path collisions: "@ + numbers::int_text(r.path_collisions.len() as int) + "\n"@
}

/// How a report reads: its head, what was found, and the verdict.
pub open spec fn rendered(root: Seq<u8>, r: ReportData) -> Seq<char> {
    heading(root, r) + block("\nissues:\n"@, issue_lines(r.issues)) + block(
        "\nwarnings:\n"@,
        warning_lines(r.warnings),
    ) + block("\npath collisions:\n"@, collision_lines(r.path_collisions)) + if clean(r) {
        "\nOK.\n"@
    } else {
        "\nFAIL.\n"@
    }
}

/// A line that names a file and says something of it.
pub fn write_path_line(path: &[u8], said: &str) -> (r: String)
    ensures
        r@ == path_line(path@, said@),
{
    let mut out = text::concat("  ", outside::lossy_text(path).as_str());
    out.append(": ");
    out.append(said);
    out.append("\n");
    out
}

/// A line for each issue.
pub fn write_issue_lines(issues: &Vec<ScanIssue>) -> (r: Vec<String>)
    ensures
        text::views(r@) == issue_lines(vault::issues_data(issues@)),
{
    let mut out: Vec<String> = Vec::new();
    let mut i: usize = 0;
    while i < issues.len()
        invariant
            i <= issues@.len(),
            out@.len() == i,
            forall|j: int|
                0 <= j < i ==> (#[trigger] out@[j])@ == path_line(
                    issues@[j].path@,
                    vault::issue_text(issues@[j].kind@),
                ),
        decreases issues@.len() - i,
    {
        let said = issues[i].kind.message();
        out.push(write_path_line(issues[i].path.as_slice(), said.as_str()));
        i += 1;
    }
    assert(text::views(out@) =~= issue_lines(vault::issues_data(issues@)));
    out
}

fn write_warning_lines(warnings: &Vec<ScanWarning>) -> (r: Vec<String>)
    ensures
        text::views(r@) == warning_lines(vault::warnings_data(warnings@)),
{
    let mut out: Vec<String> = Vec::new();
    let mut i: usize = 0;
    while i < warnings.len()
        invariant
            i <= warnings@.len(),
            out@.len() == i,
            forall|j: int|
                0 <= j < i ==> (#[trigger] out@[j])@ == path_line(
                    warnings@[j].path@,
                    vault::warning_text(warnings@[j].kind@),
                ),
        decreases warnings@.len() - i,
    {
        let said = warnings[i].kind.message();
        out.push(write_path_line(warnings[i].path.as_slice(), said.as_str()));
        i += 1;
    }
    assert(text::views(out@) =~= warning_lines(vault::warnings_data(warnings@)));
    out
}

fn write_collision_lines(v: &Vec<PathCollision>) -> (r: Vec<String>)
    ensures
        text::views(r@) == collision_lines(collisions_data(v@)),
{
    let mut out: Vec<String> = Vec::new();
    let mut i: usize = 0;
    while i < v.len()
        invariant
            i <= v@.len(),
            out@.len() == i,
            forall|j: int| 0 <= j < i ==> (#[trigger] out@[j])@ == collision_line(v@[j]@),
        decreases v@.len() - i,
    {
        let mut line = text::concat("  ", v[i].path.as_str());
        line.append(" (");
        line.append(numbers::usize_text(v[i].count).as_str());
        line.append(" files)\n");
        out.push(line);
        i += 1;
    }
    assert(text::views(out@) =~= collision_lines(collisions_data(v@)));
    out
}

fn write_block(title: &str, lines: &Vec<String>) -> (r: String)
    ensures
        r@ == block(title@, text::views(lines@)),
{
    if lines.len() == 0 {
        let none = String::new();
        assert(none@ =~= seq![]);
        return none;
    }
    text::concat(title, text::join(lines, "").as_str())
}

/// Writes a report.
pub fn render(vault_root: &[u8], report: &Report) -> (r: String)
    ensures
        r@ == rendered(vault_root@, report@),
{
    let mut out = text::concat("anwesen doctor: ", outside::lossy_text(vault_root).as_str());
    out.append("\n  notes:           ");
    out.append(numbers::usize_text(report.note_count).as_str());
    out.append("\n  issues:          ");
    out.append(numbers::usize_text(report.issues.len()).as_str());
    out.append("\n  warnings:        ");
    out.append(numbers::usize_text(report.warnings.len()).as_str());
    out.append("\n  path collisions: ");
    out.append(numbers::usize_text(report.path_collisions.len()).as_str());
    out.append("\n");
    assert(out@ == heading(vault_root@, report@));
    out.append(write_block("\nissues:\n", &write_issue_lines(&report.issues)).as_str());
    out.append(write_block("\nwarnings:\n", &write_warning_lines(&report.warnings)).as_str());
    out.append(
        write_block(
            "\npath collisions:\n",
            &write_collision_lines(&report.path_collisions),
        ).as_str(),
    );
    if report.is_clean() {
        out.append("\nOK.\n");
    } else {
        out.append("\nFAIL.\n");
    }
    out
}

/// Checks a walk through the vault, and gives the report as text together with
/// the exit code: zero exactly if the report is clean, else one.
pub fn run_and_render(vault_root: &[u8], walk: Vec<WalkItem>) -> (r: (String, i32))
    ensures
        ({
            let scan = vault::scanned(vault_root@, vault::walk_data(walk@));
            let report = report_of(scan);
            &&& r.0@ == rendered(vault_root@, report)
            &&& r.1 == if clean(report) {
                0int
            } else {
                1int
            }
            &&& r.1 == 0 ==> forall|key: Seq<char>| !#[trigger] drift::drifts(scan.notes, key)
        }),
{
    let report = run(vault_root, walk);
    let exit: i32 = if report.is_clean() {
        0
    } else {
        1
    };
    (render(vault_root, &report), exit)
}

/// A path that two notes have collides.
pub proof fn collision_is_a_shared_path(s: Seq<Seq<char>>, i: int, j: int)
    requires
        0 <= i < j < s.len(),
        s[i] == s[j],
    ensures
        occurrences(s, s[i]) > 1,
    decreases s.len(),
{
    let rest = s.drop_last();
    if j < rest.len() {
        collision_is_a_shared_path(rest, i, j);
        assert(rest[i] == s[i]);
    } else {
        assert(rest[i] == s[i]);
        assert(rest.contains(s[i]));
        occurrences_bounds(rest, s[i]);
        assert(s.last() == s[j]);
    }
}

/// Notes of different paths do not collide.
pub proof fn different_paths_do_not_collide(s: Seq<Seq<char>>, x: Seq<char>)
    requires
        s.no_duplicates(),
    ensures
        occurrences(s, x) <= 1,
    decreases s.len(),
{
    if s.len() > 0 {
        let rest = s.drop_last();
        assert(rest.no_duplicates());
        different_paths_do_not_collide(rest, x);
        if s.last() == x {
            occurrences_bounds(rest, x);
            if rest.contains(x) {
                assert(s[rest.index_of(x)] == s[s.len() - 1]);
            }
        }
    }
}

/// Every key that drifts is reported, exactly once, and no other is.
pub proof fn drift_is_reported(scan: ScanData, key: Seq<char>)
    requires
        forall|i: int|
            0 <= i < scan.notes.len() ==> (#[trigger] scan.notes[i]).frontmatter.dom().finite(),
    ensures
        drift::drifts(scan.notes, key) <==> exists|i: int|
            scan.warnings.len() <= i < report_of(scan).warnings.len() && names_drift(
                #[trigger] report_of(scan).warnings[i],
                key,
            ),
        forall|i: int, j: int|
            scan.warnings.len() <= i < j < report_of(scan).warnings.len() && names_drift(
                #[trigger] report_of(scan).warnings[i],
                key,
            ) ==> !names_drift(#[trigger] report_of(scan).warnings[j], key),
{
    let keys = sorted::ascending(drift::drifting(scan.notes));
    let found = drift::drift_warnings(scan.notes);
    let all = report_of(scan).warnings;
    let n = scan.warnings.len() as int;
    drift::drifting_keys_are_listed(scan.notes);
    assert(drift::drifting(scan.notes).contains(key) <==> keys.contains(key));
    assert forall|i: int| n <= i < all.len() implies names_drift(#[trigger] all[i], key) == (keys[i
        - n] == key) by {
        assert(all[i] == found[i - n]);
    }
    if keys.contains(key) {
        let i = keys.index_of(key);
        assert(names_drift(all[n + i], key));
    }
    assert forall|i: int, j: int|
        n <= i < j < all.len() && names_drift(#[trigger] all[i], key) implies !names_drift(
        #[trigger] all[j],
        key,
    ) by {
        if names_drift(all[j], key) {
            assert(text::precedes(keys[i - n], keys[j - n]));
            text::precedes_irreflexive(key);
        }
    }
}

/// Whether a warning says that a key drifts.
pub open spec fn names_drift(w: WarningData, key: Seq<char>) -> bool {
    w.kind == WarningKindData::TypeDrift(key)
}

/// A clean report means that no key drifts.
pub proof fn clean_means_no_drift(scan: ScanData, key: Seq<char>)
    requires
        forall|i: int|
            0 <= i < scan.notes.len() ==> (#[trigger] scan.notes[i]).frontmatter.dom().finite(),
        clean(report_of(scan)),
    ensures
        !drift::drifts(scan.notes, key),
{
    drift_is_reported(scan, key);
}

/// The places where a text stands in a list.
pub open spec fn places(s: Seq<Seq<char>>, x: Seq<char>) -> Set<int> {
    Set::new(|i: int| 0 <= i < s.len() && s[i] == x)
}

proof fn places_are_counted(s: Seq<Seq<char>>, x: Seq<char>)
    ensures
        places(s, x).finite(),
        places(s, x).len() == occurrences(s, x),
    decreases s.len(),
{
    if s.len() == 0 {
        assert(places(s, x) =~= Set::empty());
    } else {
        let rest = s.drop_last();
        let n = s.len() - 1;
        places_are_counted(rest, x);
        if s[n] == x {
            assert(places(s, x) =~= places(rest, x).insert(n));
        } else {
            assert(places(s, x) =~= places(rest, x));
        }
    }
}

/// A path is told as a collision exactly if two notes have it, with the number
/// of notes that do; the collisions are in ascending order, each path once.
pub proof fn collisions_are_counted(s: Seq<Seq<char>>, x: Seq<char>)
    ensures
        (exists|k: int| 0 <= k < collisions(s).len() && (#[trigger] collisions(s)[k]).path == x)
            <==> exists|i: int, j: int|
            0 <= i < j < s.len() && #[trigger] s[i] == x && #[trigger] s[j] == x,
        forall|k: int|
            0 <= k < collisions(s).len() && (#[trigger] collisions(s)[k]).path == x
                ==> collisions(s)[k].count == places(s, x).len(),
        forall|k: int, l: int|
            0 <= k < l < collisions(s).len() ==> text::precedes(
                (#[trigger] collisions(s)[k]).path,
                (#[trigger] collisions(s)[l]).path,
            ),
{
    let keys = sorted::ascending(s.to_set());
    let found = keys.filter(collides(s));
    s.lemma_cardinality_of_set();
    sorted::finite_sets_are_listed(s.to_set());
    sorted::filter_ascends(keys, collides(s));
    sorted::filter_contains(keys, collides(s), x);
    assert(s.to_set().contains(x) <==> keys.contains(x));
    places_are_counted(s, x);
    occurrences_bounds(s, x);
    if exists|k: int| 0 <= k < collisions(s).len() && (#[trigger] collisions(s)[k]).path == x {
        let k = choose|k: int|
            0 <= k < collisions(s).len() && (#[trigger] collisions(s)[k]).path == x;
        assert(found[k] == x);
        assert(found.contains(x));
        let (i, j) = two_places(s, x);
        assert(s[i] == x && s[j] == x);
    }
    if exists|i: int, j: int|
        0 <= i < j < s.len() && #[trigger] s[i] == x && #[trigger] s[j] == x {
        let (i, j) = choose|i: int, j: int|
            0 <= i < j < s.len() && #[trigger] s[i] == x && #[trigger] s[j] == x;
        collision_is_a_shared_path(s, i, j);
        assert(found.contains(x));
        let k = found.index_of(x);
        assert(collisions(s)[k].path == x);
    }
}

proof fn two_places(s: Seq<Seq<char>>, x: Seq<char>) -> (r: (int, int))
    requires
        occurrences(s, x) > 1,
    ensures
        0 <= r.0 < r.1 < s.len(),
        s[r.0] == x,
        s[r.1] == x,
    decreases s.len(),
{
    let rest = s.drop_last();
    let n = s.len() - 1;
    if s[n] == x {
        occurrences_bounds(rest, x);
        assert(rest.contains(x));
        (rest.index_of(x), n)
    } else {
        two_places(rest, x)
    }
}

/// A vault is in order exactly if every file could be turned into a note,
/// nothing is odd about any, no two notes have one path and no key drifts.
pub proof fn reports_are_clean_if_all_is_well(scan: ScanData)
    requires
        forall|i: int|
            0 <= i < scan.notes.len() ==> (#[trigger] scan.notes[i]).frontmatter.dom().finite(),
    ensures
        clean(report_of(scan)) <==> scan.issues.len() == 0 && scan.warnings.len() == 0 && (forall|
            i: int,
            j: int,
        |
            0 <= i < j < scan.notes.len() ==> (#[trigger] scan.notes[i]).path != (
            #[trigger] scan.notes[j]).path) && forall|key: Seq<char>|
            !#[trigger] drift::drifts(scan.notes, key),
        report_of(scan).note_count == scan.notes.len(),
{
    let s = note_paths(scan.notes);
    let r = report_of(scan);
    let keys = sorted::ascending(drift::drifting(scan.notes));
    drift::drifting_keys_are_listed(scan.notes);
    if clean(r) {
        assert forall|i: int, j: int| 0 <= i < j < scan.notes.len() implies (
        #[trigger] scan.notes[i]).path != (#[trigger] scan.notes[j]).path by {
            if scan.notes[i].path == scan.notes[j].path {
                let x = s[i];
                collisions_are_counted(s, x);
                assert(s[i] == x && s[j] == x);
            }
        }
        assert forall|key: Seq<char>| !#[trigger] drift::drifts(scan.notes, key) by {
            clean_means_no_drift(scan, key);
        }
    }
    if scan.issues.len() == 0 && scan.warnings.len() == 0 && (forall|i: int, j: int|
        0 <= i < j < scan.notes.len() ==> (#[trigger] scan.notes[i]).path != (
        #[trigger] scan.notes[j]).path) && forall|key: Seq<char>|
        !#[trigger] drift::drifts(scan.notes, key) {
        if r.path_collisions.len() > 0 {
            let x = r.path_collisions[0].path;
            collisions_are_counted(s, x);
            assert(collisions(s)[0].path == x);
            let (i, j) = choose|i: int, j: int|
                0 <= i < j < s.len() && #[trigger] s[i] == x && #[trigger] s[j] == x;
            assert(scan.notes[i].path == s[i]);
            assert(scan.notes[j].path == s[j]);
        }
        if keys.len() > 0 {
            assert(keys.contains(keys[0]));
            assert(drift::drifting(scan.notes).contains(keys[0]));
            assert(drift::drifts(scan.notes, keys[0]));
        }
    }
}

proof fn line_is_within(title: Seq<char>, lines: Seq<Seq<char>>, i: int, t: Seq<char>)
    requires
        0 <= i < lines.len(),
        text::is_within(t, lines[i]),
    ensures
        text::is_within(t, block(title, lines)),
{
    text::joined_holds_each(lines, ""@, i);
    let all = text::joined(lines, ""@);
    let none = Seq::<char>::empty();
    text::within_through(t, lines[i], all);
    text::within_more(t, all, title, none);
    assert(title + all + none =~= title + all);
}

proof fn said_in_a_line(path: Seq<u8>, said: Seq<char>)
    ensures
        text::is_within(outside::lossy(path), path_line(path, said)),
        text::is_within(said, path_line(path, said)),
{
    let p = outside::lossy(path);
    text::within_by("  "@, p, ": "@ + said + "\n"@);
    assert("  "@ + p + (": "@ + said + "\n"@) =~= path_line(path, said));
    text::within_by("  "@ + p + ": "@, said, "\n"@);
}

/// A report names every file that has an issue or a warning together with what
/// is the matter, and every path that notes share.
pub proof fn reports_name_everything(root: Seq<u8>, r: ReportData, i: int)
    ensures
        0 <= i < r.issues.len() ==> text::is_within(
            outside::lossy(r.issues[i].path),
            rendered(root, r),
        ) && text::is_within(vault::issue_text(r.issues[i].kind), rendered(root, r)),
        0 <= i < r.warnings.len() ==> text::is_within(
            outside::lossy(r.warnings[i].path),
            rendered(root, r),
        ) && text::is_within(vault::warning_text(r.warnings[i].kind), rendered(root, r)),
        0 <= i < r.path_collisions.len() ==> text::is_within(
            r.path_collisions[i].path,
            rendered(root, r),
        ) && text::is_within(
            numbers::int_text(r.path_collisions[i].count as int),
            rendered(root, r),
        ),
{
    let a = heading(root, r);
    let b = block("\nissues:\n"@, issue_lines(r.issues));
    let c = block("\nwarnings:\n"@, warning_lines(r.warnings));
    let d = block("\npath collisions:\n"@, collision_lines(r.path_collisions));
    let e = if clean(r) {
        "\nOK.\n"@
    } else {
        "\nFAIL.\n"@
    };
    let all = rendered(root, r);
    assert(all =~= a + b + (c + d + e));
    assert(all =~= (a + b) + c + (d + e));
    assert(all =~= (a + b + c) + d + e);
    if 0 <= i < r.issues.len() {
        let x = r.issues[i];
        let p = outside::lossy(x.path);
        let t = vault::issue_text(x.kind);
        said_in_a_line(x.path, t);
        line_is_within("\nissues:\n"@, issue_lines(r.issues), i, p);
        line_is_within("\nissues:\n"@, issue_lines(r.issues), i, t);
        text::within_more(p, b, a, c + d + e);
        text::within_more(t, b, a, c + d + e);
    }
    if 0 <= i < r.warnings.len() {
        let x = r.warnings[i];
        let p = outside::lossy(x.path);
        let t = vault::warning_text(x.kind);
        said_in_a_line(x.path, t);
        line_is_within("\nwarnings:\n"@, warning_lines(r.warnings), i, p);
        line_is_within("\nwarnings:\n"@, warning_lines(r.warnings), i, t);
        text::within_more(p, c, a + b, d + e);
        text::within_more(t, c, a + b, d + e);
    }
    if 0 <= i < r.path_collisions.len() {
        let x = r.path_collisions[i];
        let p = x.path;
        let t = numbers::int_text(x.count as int);
        let line = collision_line(x);
        text::within_by("  "@, p, " ("@ + t + " files)\n"@);
        assert("  "@ + p + (" ("@ + t + " files)\n"@) =~= line);
        text::within_by("  "@ + p + " ("@, t, " files)\n"@);
        line_is_within("\npath collisions:\n"@, collision_lines(r.path_collisions), i, p);
        line_is_within("\npath collisions:\n"@, collision_lines(r.path_collisions), i, t);
        text::within_more(p, d, a + b + c, e);
        text::within_more(t, d, a + b + c, e);
    }
}

/// A report ends in its verdict.
pub proof fn reports_end_in_the_verdict(root: Seq<u8>, r: ReportData)
    ensures
        clean(r) ==> text::has_suffix(rendered(root, r), "OK.\n"@),
        !clean(r) ==> text::has_suffix(rendered(root, r), "FAIL.\n"@),
{
    let all = rendered(root, r);
    reveal_strlit("\nOK.\n");
    reveal_strlit("\nFAIL.\n");
    reveal_strlit("OK.\n");
    reveal_strlit("FAIL.\n");
    if clean(r) {
        assert(all.skip(all.len() - 4) =~= "OK.\n"@);
    } else {
        assert(all.skip(all.len() - 6) =~= "FAIL.\n"@);
    }
}

proof fn three_in_a_row(x: Seq<char>, a: Seq<char>, b: Seq<char>, c: Seq<char>)
    ensures
        text::is_within(a + b + c, x + a + b + c),
{
    text::within_by(x, a + b + c, seq![]);
    assert(x + (a + b + c) + seq![] =~= x + a + b + c);
}

proof fn within_front(t: Seq<char>, s: Seq<char>, y: Seq<char>)
    requires
        text::is_within(t, s),
    ensures
        text::is_within(t, s + y),
{
    text::within_more(t, s, seq![], y);
    assert(seq![] + s + y =~= s + y);
}

/// A report names the vault, and says how many notes, issues, warnings and
/// collisions there are, each behind its own label.
pub proof fn reports_say_how_much(root: Seq<u8>, r: ReportData)
    ensures
        text::is_within(
            "anwesen doctor: "@ + outside::lossy(root) + "\n  notes:           "@,
            heading(root, r),
        ),
        text::is_within(
            "\n  notes:           "@ + numbers::int_text(r.note_count as int)
                + "\n  issues:          "@,
            heading(root, r),
        ),
        text::is_within(
            "\n  issues:          "@ + numbers::int_text(r.issues.len() as int)
                + "\n  warnings:        "@,
            heading(root, r),
        ),
        text::is_within(
            "\n  warnings:        "@ + numbers::int_text(r.warnings.len() as int)
                + "\n  path collisions: "@,
            heading(root, r),
        ),
        text::is_within(
            "\n  path collisions: "@ + numbers::int_text(r.path_collisions.len() as int) + "\n"@,
            heading(root, r),
        ),
        text::has_prefix(rendered(root, r), heading(root, r)),
{
    let a = "anwesen doctor: "@;
    let p = outside::lossy(root);
    let l1 = "\n  notes:           "@;
    let l2 = "\n  issues:          "@;
    let l3 = "\n  warnings:        "@;
    let l4 = "\n  path collisions: "@;
    let end = "\n"@;
    let n1 = numbers::int_text(r.note_count as int);
    let n2 = numbers::int_text(r.issues.len() as int);
    let n3 = numbers::int_text(r.warnings.len() as int);
    let n4 = numbers::int_text(r.path_collisions.len() as int);
    labels_in_a_row(a, p, l1, n1, l2, n2, l3, n3, l4, n4, end);
    let all = rendered(root, r);
    let h = heading(root, r);
    assert(all.take(h.len() as int) =~= h);
}

proof fn labels_in_a_row(
    a: Seq<char>,
    p: Seq<char>,
    l1: Seq<char>,
    n1: Seq<char>,
    l2: Seq<char>,
    n2: Seq<char>,
    l3: Seq<char>,
    n3: Seq<char>,
    l4: Seq<char>,
    n4: Seq<char>,
    end: Seq<char>,
)
    ensures
        ({
            let all = a + p + l1 + n1 + l2 + n2 + l3 + n3 + l4 + n4 + end;
            &&& text::is_within(a + p + l1, all)
            &&& text::is_within(l1 + n1 + l2, all)
            &&& text::is_within(l2 + n2 + l3, all)
            &&& text::is_within(l3 + n3 + l4, all)
            &&& text::is_within(l4 + n4 + end, all)
        }),
{
    let x0 = a + p + l1;
    let x1 = x0 + n1 + l2;
    let x2 = x1 + n2 + l3;
    let x3 = x2 + n3 + l4;
    three_in_a_row(seq![], a, p, l1);
    assert(seq![] + a + p + l1 =~= x0);
    three_in_a_row(a + p, l1, n1, l2);
    three_in_a_row(x0 + n1, l2, n2, l3);
    three_in_a_row(x1 + n2, l3, n3, l4);
    three_in_a_row(x2 + n3, l4, n4, end);
    let t0 = a + p + l1;
    let t1 = l1 + n1 + l2;
    let t2 = l2 + n2 + l3;
    let t3 = l3 + n3 + l4;
    within_front(t0, x0, n1);
    within_front(t0, x0 + n1, l2);
    within_front(t0, x1, n2);
    within_front(t0, x1 + n2, l3);
    within_front(t0, x2, n3);
    within_front(t0, x2 + n3, l4);
    within_front(t0, x3, n4);
    within_front(t0, x3 + n4, end);
    within_front(t1, x1, n2);
    within_front(t1, x1 + n2, l3);
    within_front(t1, x2, n3);
    within_front(t1, x2 + n3, l4);
    within_front(t1, x3, n4);
    within_front(t1, x3 + n4, end);
    within_front(t2, x2, n3);
    within_front(t2, x2 + n3, l4);
    within_front(t2, x3, n4);
    within_front(t2, x3 + n4, end);
    within_front(t3, x3, n4);
    within_front(t3, x3 + n4, end);
}

/// The check of a walk exits with zero exactly if every wanted file became a
/// note, nothing is odd about any, no two have one path and no key drifts, and
/// with one otherwise.
pub proof fn exit_codes_tell_whether_all_is_well(
    vault_root: &[u8],
    walk: Vec<WalkItem>,
    r: (String, i32),
)
    requires
        call_ensures(run_and_render, (vault_root, walk), r),
        ({
            let notes = vault::scanned(vault_root@, vault::walk_data(walk@)).notes;
            forall|i: int| 0 <= i < notes.len() ==> (#[trigger] notes[i]).frontmatter.dom().finite()
        }),
    ensures
        ({
            let scan = vault::scanned(vault_root@, vault::walk_data(walk@));
            &&& r.1 == 0 || r.1 == 1
            &&& r.1 == 0 <==> scan.issues.len() == 0 && scan.warnings.len() == 0 && (forall|
                i: int,
                j: int,
            |
                0 <= i < j < scan.notes.len() ==> (#[trigger] scan.notes[i]).path != (
                #[trigger] scan.notes[j]).path) && forall|key: Seq<char>|
                !#[trigger] drift::drifts(scan.notes, key)
            &&& r.1 == 0 ==> text::has_suffix(r.0@, "OK.\n"@)
            &&& r.1 == 1 ==> text::has_suffix(r.0@, "FAIL.\n"@)
        }),
{
    let scan = vault::scanned(vault_root@, vault::walk_data(walk@));
    reports_are_clean_if_all_is_well(scan);
    reports_end_in_the_verdict(vault_root@, report_of(scan));
}

}
