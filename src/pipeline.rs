use vstd::prelude::*;
use vstd::utf8::encode_utf8;
use crate::discover::CandidateEntry;
use crate::record::{FileMeta, category_name, category_of, classify, guess_mime, mime_of};
use crate::registry::{ScanState, admitted};


verus! {

/// Relies on `num_cpus::get`: the number of logical CPUs, at least one.
#[verifier::external_body]
fn logical_cpus() -> (r: usize)
    ensures
        r >= 1,
{
    num_cpus::get()
}

/// Relies on `num_cpus::get_physical`: the number of physical cores, at least one.
#[verifier::external_body]
fn physical_cpus() -> (r: usize)
    ensures
        r >= 1,
{
    num_cpus::get_physical()
}

/// The smallest pool a scan runs with.
pub const MIN_WORKERS: usize = 4;

pub open spec fn capped(n: int) -> int {
    if n > usize::MAX {
        usize::MAX as int
    } else {
        n
    }
}

/// `min(2 * logical, 4 * physical)`, at least `MIN_WORKERS`.
pub open spec fn workers_for(logical: usize, physical: usize) -> int {
    let a = capped(2 * logical);
    let b = capped(4 * physical);
    let m = if a < b {
        a
    } else {
        b
    };
    if m < MIN_WORKERS {
        MIN_WORKERS as int
    } else {
        m
    }
}

/// The worker count for a host with `logical` hardware threads and `physical` cores.
pub fn worker_count(logical: usize, physical: usize) -> (r: usize)
    ensures
        r == workers_for(logical, physical),
{
    let a: usize = if logical > usize::MAX / 2 {
        usize::MAX
    } else {
        logical * 2
    };
    let b: usize = if physical > usize::MAX / 4 {
        usize::MAX
    } else {
        physical * 4
    };
    let m = if a < b {
        a
    } else {
        b
    };
    if m < MIN_WORKERS {
        MIN_WORKERS
    } else {
        m
    }
}

/// The worker count for this host.
pub fn determine_optimal_thread_count() -> (r: usize)
    ensures
        r >= MIN_WORKERS,
{
    let logical = logical_cpus();
    let physical = physical_cpus();
    worker_count(logical, physical)
}

/// `m` is the record of `entry` with fingerprint `fingerprint`.
pub open spec fn describes(m: FileMeta, entry: CandidateEntry, fingerprint: Seq<char>) -> bool {
    &&& m.filename@ == entry.path@
    &&& m.folder@ == entry.parent@
    &&& m.size == entry.size
    &&& m.hash@ == fingerprint
    &&& m.mime@ == mime_of(entry.path@)
    &&& m.filetype@ == category_name(category_of(encode_utf8(m.mime@)))
}

/// The record of a fingerprinted file: its content type is guessed from its path and
/// its category follows from that type.
pub fn file_record(entry: &CandidateEntry, fingerprint: String) -> (r: FileMeta)
    ensures
        describes(r, *entry, fingerprint@),
{
    let mime = guess_mime(entry.path.as_str());
    let category = classify(mime.as_str());
    FileMeta {
        filename: entry.path.clone(),
        folder: entry.parent.clone(),
        size: entry.size,
        mime,
        hash: fingerprint,
        filetype: category.label(),
    }
}

/// The records of the files that were processed, in order.
pub open spec fn successes(results: Seq<Option<FileMeta>>) -> Seq<FileMeta>
    decreases results.len(),
{
    if results.len() == 0 {
        Seq::empty()
    } else {
        let prev = successes(results.drop_last());
        match results.last() {
            Some(m) => prev.push(m),
            None => prev,
        }
    }
}

/// Finishes one directory batch: the files that failed (`None`) are dropped, the
/// others are admitted in order. Returns how many files were processed.
pub fn process_directory_batch(state: &mut ScanState, results: Vec<Option<FileMeta>>) -> (r: usize)
    requires
        old(state).wf(),
    ensures
        final(state).wf(),
        r == successes(results@).len(),
        final(state).records() == old(state).records() + admitted(
            old(state).seen().dom(),
            successes(results@),
        ),
{
    let mut oks: Vec<FileMeta> = Vec::new();
    let mut i: usize = 0;
    while i < results.len()
        invariant
            i <= results@.len(),
            oks@ == successes(results@.subrange(0, i as int)),
        decreases results@.len() - i,
    {
        let ghost next = results@.subrange(0, i + 1);
        assert(next.drop_last() =~= results@.subrange(0, i as int));
        match &results[i] {
            Some(m) => {
                oks.push(m.clone());
            },
            None => {},
        }
        i = i + 1;
    }
    assert(results@.subrange(0, i as int) =~= results@);
    let processed = oks.len();
    state.admit_all(oks);
    processed
}

} // verus!
