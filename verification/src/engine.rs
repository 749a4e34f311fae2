//! One synchronization pass, taken a document at a time: what to do with a
//! listed document, and what to record once its export has ended.

use vstd::prelude::*;
use vstd::string::StringExecFns;
use crate::document::File;
use crate::document::FileView;
use crate::filename::allocated;
use crate::filename::candidate;
use crate::filename::first_free;
use crate::filename::get_new_filename;
use crate::filename::is_taken;
use crate::filename::lemma_first_free;
use crate::filename::names;
use crate::filename::sanitized;
use crate::ledger::downloaded_entry;
use crate::ledger::filenames_distinct;
use crate::ledger::ledger_consistent;
use crate::ledger::stale;
use crate::ledger::too_large_entry;
use crate::ledger::FileMap;
use crate::ledger::LedgerView;

verus! {

/// A document is eligible when it is of the native document kind, owned by
/// the operator and not trashed.
pub open spec fn eligible(f: FileView) -> bool {
    f.mime_type == "application/vnd.google-apps.document"@ && f.owned_by_me && !f.trashed
}

/// Whether `f` is eligible for export.
pub fn is_eligible(f: &File) -> (r: bool)
    ensures
        r == eligible(f@),
{
    let kind = String::from_str("application/vnd.google-apps.document");
    f.mime_type == kind && f.owned_by_me && !f.trashed
}

/// What a pass does with one listed document.
#[derive(Debug, Clone)]
pub enum Action {
    /// The document is not eligible: nothing is looked up or recorded.
    Ignore,
    /// The document is up to date: no export, no write, no change.
    Skip,
    /// The document is to be exported to the local file `filename`.
    Export { filename: String },
}

/// The mathematical value of an [`Action`].
pub enum ActionView {
    Ignore,
    Skip,
    Export { filename: Seq<char> },
}

impl View for Action {
    type V = ActionView;

    open spec fn view(&self) -> ActionView {
        match self {
            Action::Ignore => ActionView::Ignore,
            Action::Skip => ActionView::Skip,
            Action::Export { filename } => ActionView::Export { filename: filename@ },
        }
    }
}

/// The action for a document, given the ledger and the files in the store.
/// A stale document keeps its recorded file when its name is the recorded
/// one; otherwise, and when it has no recorded file, a name is allocated.
pub open spec fn planned(ledger: LedgerView, taken: Seq<Seq<char>>, f: FileView) -> ActionView {
    if !eligible(f) {
        ActionView::Ignore
    } else if !stale(ledger, f) {
        ActionView::Skip
    } else if ledger.contains_key(f.id) && ledger[f.id].name == f.name
        && ledger[f.id].filename is Some {
        ActionView::Export { filename: ledger[f.id].filename->0 }
    } else {
        ActionView::Export { filename: allocated(taken, f.name) }
    }
}

/// Decides what to do with the listed document `f`.
pub fn plan(filemap: &FileMap, existing: &Vec<String>, f: &File) -> (r: Action)
    requires
        filemap.wf(),
    ensures
        r@ == planned(filemap@, names(existing@), f@),
{
    if !is_eligible(f) {
        return Action::Ignore;
    }
    if !filemap.needs_download(f) {
        return Action::Skip;
    }
    match filemap.get(&f.id) {
        Some(entry) => {
            if entry.name == f.name {
                match &entry.filename {
                    Some(kept) => { return Action::Export { filename: kept.clone() }; },
                    None => {},
                }
            }
        },
        None => {},
    }
    Action::Export { filename: get_new_filename(existing, f) }
}

/// One reason that the remote gives for refusing a request.
#[derive(Debug, Clone)]
pub struct ErrorDetail {
    pub domain: String,
    pub reason: String,
}

/// Why an export failed.
#[derive(Debug, Clone)]
pub enum ExportError {
    /// The remote refused the request, for the listed reasons.
    BadRequest(Vec<ErrorDetail>),
    /// Any other failure of the transport or the session.
    Other,
}

/// The two kinds of failure that a pass tells apart.
#[derive(Debug, Clone, Copy, PartialEq, Eq, Structural)]
pub enum Failure {
    /// The document is too large to export: recorded, and the pass goes on.
    SizeLimitExceeded,
    /// The pass ends here.
    Fatal,
}

/// The reason by which the remote says that a document is too large.
pub open spec fn is_size_limit(d: ErrorDetail) -> bool {
    d.domain@ == "global"@ && d.reason@ == "exportSizeLimitExceeded"@
}

/// One of the reasons says that the document is too large.
pub open spec fn names_size_limit(details: Seq<ErrorDetail>) -> bool {
    exists|i: int| 0 <= i < details.len() && is_size_limit(#[trigger] details[i])
}

/// A refused request is a size-limit failure when one of its reasons says
/// so; no other failure is.
pub open spec fn size_limit_exceeded(e: ExportError) -> bool {
    match e {
        ExportError::BadRequest(details) => names_size_limit(details@),
        ExportError::Other => false,
    }
}

/// Tells a size-limit failure from a fatal one.
pub fn classify(e: &ExportError) -> (r: Failure)
    ensures
        r == (if size_limit_exceeded(*e) {
            Failure::SizeLimitExceeded
        } else {
            Failure::Fatal
        }),
{
    match e {
        ExportError::BadRequest(details) => {
            let global = String::from_str("global");
            let limit = String::from_str("exportSizeLimitExceeded");
            let mut i: usize = 0;
            while i < details.len()
                invariant
                    i <= details.len(),
                    *e == ExportError::BadRequest(*details),
                    global@ == "global"@,
                    limit@ == "exportSizeLimitExceeded"@,
                    forall|j: int| 0 <= j < i ==> !is_size_limit(#[trigger] details@[j]),
                decreases details.len() - i,
            {
                if details[i].domain == global && details[i].reason == limit {
                    assert(is_size_limit(details@[i as int]));
                    return Failure::SizeLimitExceeded;
                }
                i += 1;
            }
            Failure::Fatal
        },
        ExportError::Other => Failure::Fatal,
    }
}

/// The state that a pass carries: the ledger and the names of the files
/// in the store.
pub struct PassState {
    pub ledger: LedgerView,
    pub files: Seq<Seq<char>>,
}

/// An export result that ends the pass.
pub open spec fn fatal(result: Result<(), ExportError>) -> bool {
    match result {
        Ok(_) => false,
        Err(e) => !size_limit_exceeded(e),
    }
}

/// The state after the export of `f` to `filename` has ended in `result`.
/// A success records the download and adds the file to the store if it is
/// not there yet; a size-limit failure records that and writes nothing; a
/// fatal failure changes nothing.
pub open spec fn settled(
    s: PassState,
    f: FileView,
    filename: Seq<char>,
    result: Result<(), ExportError>,
) -> PassState {
    match result {
        Ok(_) => PassState {
            ledger: s.ledger.insert(f.id, downloaded_entry(f, filename)),
            files: if s.files.contains(filename) {
                s.files
            } else {
                s.files.push(filename)
            },
        },
        Err(e) => if size_limit_exceeded(e) {
            PassState { ledger: s.ledger.insert(f.id, too_large_entry(f)), files: s.files }
        } else {
            s
        },
    }
}

/// Records how the export of `f` to `filename` ended. `result` is `Ok`
/// once the exported bytes are written to `filename`. Returns whether the
/// pass goes on to the next document.
pub fn settle(
    filemap: &mut FileMap,
    existing: &mut Vec<String>,
    f: File,
    filename: String,
    result: &Result<(), ExportError>,
) -> (go_on: bool)
    requires
        old(filemap).wf(),
    ensures
        final(filemap).wf(),
        go_on == !fatal(*result),
        (PassState { ledger: final(filemap)@, files: names(final(existing)@) }) == settled(
            (PassState { ledger: old(filemap)@, files: names(old(existing)@) }),
            f@,
            filename@,
            *result,
        ),
{
    let ghost before = names(existing@);
    match result {
        Ok(_) => {
            if !is_taken(existing, &filename) {
                existing.push(filename.clone());
                assert(names(existing@) =~= before.push(filename@));
            }
            filemap.update(&f, filename);
            true
        },
        Err(e) => {
            match classify(e) {
                Failure::SizeLimitExceeded => {
                    filemap.mark_as_large(f);
                    true
                },
                Failure::Fatal => false,
            }
        },
    }
}

/// The state after a pass has dealt with one listed document whose export,
/// if one is made, ends in `result`.
pub open spec fn step(s: PassState, f: FileView, result: Result<(), ExportError>) -> PassState {
    match planned(s.ledger, s.files, f) {
        ActionView::Export { filename } => settled(s, f, filename, result),
        _ => s,
    }
}

/// The state after a pass over `docs` in listing order, where `results[i]`
/// is how the export of `docs[i]` ends if it is made.
pub open spec fn pass(
    s: PassState,
    docs: Seq<FileView>,
    results: Seq<Result<(), ExportError>>,
) -> PassState
    decreases docs.len(),
{
    if docs.len() == 0 {
        s
    } else {
        step(pass(s, docs.drop_last(), results.drop_last()), docs.last(), results.last())
    }
}

/// No two listed documents share an id.
pub open spec fn ids_distinct(docs: Seq<FileView>) -> bool {
    forall|i: int, j: int| 0 <= i < j < docs.len() ==> docs[i].id != docs[j].id
}

/// Every listed document is ineligible or up to date.
pub open spec fn all_settled(ledger: LedgerView, docs: Seq<FileView>) -> bool {
    forall|i: int| 0 <= i < docs.len() ==> eligible(#[trigger] docs[i]) ==> !stale(ledger, docs[i])
}

/// After a pass that no fatal failure ended, every document of the
/// listing is ineligible or up to date.
pub proof fn lemma_pass_settles(
    s: PassState,
    docs: Seq<FileView>,
    results: Seq<Result<(), ExportError>>,
)
    requires
        ids_distinct(docs),
        results.len() == docs.len(),
        forall|i: int| 0 <= i < results.len() ==> !fatal(#[trigger] results[i]),
    ensures
        all_settled(pass(s, docs, results).ledger, docs),
    decreases docs.len(),
{
    if docs.len() > 0 {
        let head = docs.drop_last();
        let mid = pass(s, head, results.drop_last());
        assert forall|i: int| 0 <= i < head.len() implies !fatal(
            #[trigger] results.drop_last()[i],
        ) by {
            assert(results.drop_last()[i] == results[i]);
        }
        lemma_pass_settles(s, head, results.drop_last());
        let end = step(mid, docs.last(), results.last());
        assert(!fatal(results[results.len() - 1]));
        assert forall|i: int| 0 <= i < docs.len() && eligible(#[trigger] docs[i]) implies !stale(
            end.ledger,
            docs[i],
        ) by {
            if i < docs.len() - 1 {
                assert(head[i] == docs[i]);
                assert(docs[i].id != docs[docs.len() - 1].id);
            }
        }
    }
}

/// A pass over a listing whose documents are all ineligible or up to
/// date changes nothing, whatever an export would have returned.
pub proof fn lemma_pass_noop(
    s: PassState,
    docs: Seq<FileView>,
    results: Seq<Result<(), ExportError>>,
)
    requires
        all_settled(s.ledger, docs),
    ensures
        pass(s, docs, results) == s,
        forall|i: int|
            0 <= i < docs.len() ==> !(planned(s.ledger, s.files, #[trigger] docs[i])
                is Export),
    decreases docs.len(),
{
    if docs.len() > 0 {
        let head = docs.drop_last();
        assert forall|i: int| 0 <= i < head.len() && eligible(#[trigger] head[i]) implies !stale(
            s.ledger,
            head[i],
        ) by {
            assert(head[i] == docs[i]);
        }
        lemma_pass_noop(s, head, results.drop_last());
        assert(eligible(docs[docs.len() - 1]) ==> !stale(s.ledger, docs[docs.len() - 1]));
    }
    assert forall|i: int| 0 <= i < docs.len() implies !(planned(
        s.ledger,
        s.files,
        #[trigger] docs[i],
    ) is Export) by {
        assert(eligible(docs[i]) ==> !stale(s.ledger, docs[i]));
    }
}

/// A second pass over an unchanged listing exports nothing and leaves the
/// ledger and the store as the first pass left them.
pub proof fn lemma_second_pass_idle(
    s: PassState,
    docs: Seq<FileView>,
    first: Seq<Result<(), ExportError>>,
    second: Seq<Result<(), ExportError>>,
)
    requires
        ids_distinct(docs),
        first.len() == docs.len(),
        forall|i: int| 0 <= i < first.len() ==> !fatal(#[trigger] first[i]),
    ensures
        pass(pass(s, docs, first), docs, second) == pass(s, docs, first),
        forall|i: int|
            0 <= i < docs.len() ==> !(planned(
                pass(s, docs, first).ledger,
                pass(s, docs, first).files,
                #[trigger] docs[i],
            ) is Export),
{
    lemma_pass_settles(s, docs, first);
    lemma_pass_noop(pass(s, docs, first), docs, second);
}

/// A changed document that kept its name is exported to the file that the
/// ledger records for it, and the store gains no file.
pub proof fn lemma_filename_stable(s: PassState, f: FileView, kept: Seq<char>)
    requires
        eligible(f),
        s.ledger.contains_key(f.id),
        s.ledger[f.id].name == f.name,
        s.ledger[f.id].modified_time != f.modified_time,
        s.ledger[f.id].filename == Some(kept),
    ensures
        planned(s.ledger, s.files, f) == (ActionView::Export { filename: kept }),
        step(s, f, Ok(())).ledger[f.id].filename == Some(kept),
        s.files.contains(kept) ==> step(s, f, Ok(())).files == s.files,
{
}

/// A changed document that was renamed gets a newly allocated file, which
/// the store did not hold and which differs from the recorded one where
/// that is still in the store; the old file stays.
pub proof fn lemma_rename_allocates(s: PassState, f: FileView, old_name: Seq<char>)
    requires
        eligible(f),
        s.ledger.contains_key(f.id),
        s.ledger[f.id].name != f.name,
        s.ledger[f.id].modified_time != f.modified_time,
        s.ledger[f.id].filename == Some(old_name),
        s.files.contains(old_name),
    ensures
        planned(s.ledger, s.files, f) == (ActionView::Export {
            filename: allocated(s.files, f.name),
        }),
        !s.files.contains(allocated(s.files, f.name)),
        allocated(s.files, f.name) != old_name,
        step(s, f, Ok(())).ledger[f.id].filename == Some(allocated(s.files, f.name)),
        step(s, f, Ok(())).files.contains(old_name),
        step(s, f, Ok(())).files.contains(allocated(s.files, f.name)),
{
    lemma_first_free(s.files, sanitized(f.name));
    let fresh = allocated(s.files, f.name);
    let after = step(s, f, Ok(())).files;
    assert(after == s.files.push(fresh));
    let i = choose|i: int| 0 <= i < s.files.len() && s.files[i] == old_name;
    assert(after[i] == old_name);
    assert(after[s.files.len() as int] == fresh);
}

/// Two documents whose names sanitize alike, allocated one after the
/// other, get two different candidates of the one stem, the later document
/// the later candidate.
pub proof fn lemma_collision_avoided(taken: Seq<Seq<char>>, a: Seq<char>, b: Seq<char>)
    requires
        sanitized(a) == sanitized(b),
    ensures
        ({
            let stem = sanitized(a);
            let first = allocated(taken, a);
            let second = allocated(taken.push(first), b);
            &&& first == candidate(stem, first_free(taken, stem))
            &&& second == candidate(stem, first_free(taken.push(first), stem))
            &&& first_free(taken, stem) < first_free(taken.push(first), stem)
            &&& first != second
            &&& !taken.contains(first)
            &&& !taken.contains(second)
        }),
{
    let stem = sanitized(a);
    let first = allocated(taken, a);
    let later = taken.push(first);
    let second = allocated(later, b);
    let k1 = first_free(taken, stem);
    let k2 = first_free(later, stem);
    lemma_first_free(taken, stem);
    lemma_first_free(later, stem);
    assert(later[taken.len() as int] == first);
    assert(later.contains(first));
    if k2 < k1 {
        let c = candidate(stem, k2);
        assert(taken.contains(c));
        let i = choose|i: int| 0 <= i < taken.len() && taken[i] == c;
        assert(later[i] == c);
    }
    if taken.contains(second) {
        let i = choose|i: int| 0 <= i < taken.len() && taken[i] == second;
        assert(later[i] == second);
    }
}

/// A size-limit failure records the document as too large, with no file
/// name, writes no file, and does not end the pass.
pub proof fn lemma_size_limit_recorded(s: PassState, f: FileView, filename: Seq<char>, e: ExportError)
    requires
        size_limit_exceeded(e),
    ensures
        !fatal(Err(e)),
        settled(s, f, filename, Err(e)).files == s.files,
        settled(s, f, filename, Err(e)).ledger == s.ledger.insert(f.id, too_large_entry(f)),
        settled(s, f, filename, Err(e)).ledger[f.id].filename is None,
        settled(s, f, filename, Err(e)).ledger[f.id].state == crate::ledger::State::TooLarge,
{
}

/// Every file that the ledger names is in the store.
pub open spec fn files_cover(s: PassState) -> bool {
    forall|id: Seq<char>| #[trigger]
        s.ledger.contains_key(id) && s.ledger[id].filename is Some ==> s.files.contains(
            s.ledger[id].filename->0,
        )
}

/// While the store holds every file that the ledger names, a step keeps
/// the ledger consistent and its file names pairwise distinct.
pub proof fn lemma_step_keeps_ledger(s: PassState, f: FileView, result: Result<(), ExportError>)
    requires
        ledger_consistent(s.ledger),
        filenames_distinct(s.ledger),
        files_cover(s),
    ensures
        ledger_consistent(step(s, f, result).ledger),
        filenames_distinct(step(s, f, result).ledger),
        files_cover(step(s, f, result)),
{
    let t = step(s, f, result);
    lemma_first_free(s.files, sanitized(f.name));
    match planned(s.ledger, s.files, f) {
        ActionView::Export { filename } => {
            assert forall|x: Seq<char>| s.files.contains(x) implies t.files.contains(x) by {
                let i = choose|i: int| 0 <= i < s.files.len() && s.files[i] == x;
                assert(t.files[i] == x);
            }
            if result is Ok {
                if !s.files.contains(filename) {
                    assert(t.files[s.files.len() as int] == filename);
                }
                assert(t.files.contains(filename));
            }
            assert forall|id: Seq<char>| #[trigger]
                t.ledger.contains_key(id) && t.ledger[id].filename is Some implies t.files.contains(
                t.ledger[id].filename->0,
            ) by {
                if id != f.id {
                    assert(s.ledger.contains_key(id));
                }
            }
            assert forall|a: Seq<char>, b: Seq<char>|
                #![trigger t.ledger[a], t.ledger[b]]
                t.ledger.contains_key(a) && t.ledger.contains_key(b) && a != b
                    && t.ledger[a].filename is Some implies t.ledger[a].filename
                != t.ledger[b].filename by {
                if a != f.id && b != f.id {
                    assert(s.ledger.contains_key(a) && s.ledger.contains_key(b));
                    assert(s.ledger[a] == t.ledger[a] && s.ledger[b] == t.ledger[b]);
                } else if result is Ok {
                    let other = if a == f.id { b } else { a };
                    assert(s.ledger.contains_key(other));
                    if s.ledger[other].filename == Some(filename) {
                        assert(s.files.contains(filename));
                        assert(s.ledger.contains_key(f.id));
                        assert(s.ledger[f.id].filename != s.ledger[other].filename);
                    }
                }
            }
        },
        _ => {},
    }
}

/// While the store holds every file that the ledger names, a whole pass
/// keeps the ledger consistent and its file names pairwise distinct.
pub proof fn lemma_pass_keeps_ledger(
    s: PassState,
    docs: Seq<FileView>,
    results: Seq<Result<(), ExportError>>,
)
    requires
        ledger_consistent(s.ledger),
        filenames_distinct(s.ledger),
        files_cover(s),
    ensures
        ledger_consistent(pass(s, docs, results).ledger),
        filenames_distinct(pass(s, docs, results).ledger),
        files_cover(pass(s, docs, results)),
    decreases docs.len(),
{
    if docs.len() > 0 {
        lemma_pass_keeps_ledger(s, docs.drop_last(), results.drop_last());
        lemma_step_keeps_ledger(
            pass(s, docs.drop_last(), results.drop_last()),
            docs.last(),
            results.last(),
        );
    }
}

} // verus!
