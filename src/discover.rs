use vstd::prelude::*;
use vstd::multiset::Multiset;
use vstd::utf8::encode_utf8;
use crate::filter::{depth_of, is_included, path_depth, should_process_file};

verus! {

/// A file met while walking the tree.
#[derive(Debug, PartialEq, Eq)]
pub struct CandidateEntry {
    /// The file's path.
    pub path: String,
    /// The path of the directory that holds it.
    pub parent: String,
    /// The last component of its path.
    pub file_name: String,
    /// Its length in bytes.
    pub size: u64,
}

/// The files that passed the filter in one directory, with that directory's depth.
#[derive(Debug, PartialEq, Eq)]
pub struct DirBatch {
    pub path: String,
    pub files: Vec<CandidateEntry>,
    pub depth: usize,
}

pub open spec fn included_entry(e: CandidateEntry) -> bool {
    is_included(e.file_name@, e.size)
}

/// The entries of `entries` that pass the filter, as a multiset.
pub open spec fn kept(entries: Seq<CandidateEntry>) -> Multiset<CandidateEntry>
    decreases entries.len(),
{
    if entries.len() == 0 {
        Multiset::empty()
    } else {
        let e = entries.last();
        kept(entries.drop_last()).add(
            if included_entry(e) {
                Multiset::singleton(e)
            } else {
                Multiset::empty()
            },
        )
    }
}

/// All the files of the batches, as a multiset.
pub open spec fn batched(bs: Seq<DirBatch>) -> Multiset<CandidateEntry>
    decreases bs.len(),
{
    if bs.len() == 0 {
        Multiset::empty()
    } else {
        batched(bs.drop_last()).add(bs.last().files@.to_multiset())
    }
}

/// A batch holds at least one file, all of them in the batch's directory, and the
/// depth of that directory.
pub open spec fn batch_wf(b: DirBatch) -> bool {
    &&& b.files@.len() > 0
    &&& forall|i: int| 0 <= i < b.files@.len() ==> included_entry(#[trigger] b.files@[i])
    &&& forall|i: int| 0 <= i < b.files@.len() ==> (#[trigger] b.files@[i]).parent@ == b.path@
    &&& b.depth == depth_of(encode_utf8(b.path@))
}

/// No two batches are for the same directory.
pub open spec fn paths_distinct(bs: Seq<DirBatch>) -> bool {
    forall|i: int, j: int|
        0 <= i < bs.len() && 0 <= j < bs.len() && i != j ==> bs[i].path@ != bs[j].path@
}

/// Deeper directories come first.
pub open spec fn deepest_first(bs: Seq<DirBatch>) -> bool {
    forall|i: int, j: int| 0 <= i < j < bs.len() ==> bs[i].depth >= bs[j].depth
}

proof fn lemma_batched_remove(bs: Seq<DirBatch>, k: int)
    requires
        0 <= k < bs.len(),
    ensures
        batched(bs) == batched(bs.remove(k)).add(bs[k].files@.to_multiset()),
    decreases bs.len(),
{
    if k == bs.len() - 1 {
        assert(bs.remove(k) =~= bs.drop_last());
    } else {
        lemma_batched_remove(bs.drop_last(), k);
        assert(bs.remove(k).drop_last() =~= bs.drop_last().remove(k));
        assert(bs.remove(k).last() == bs.last());
        assert(batched(bs) =~= batched(bs.remove(k)).add(bs[k].files@.to_multiset()));
    }
}

proof fn lemma_batched_insert(bs: Seq<DirBatch>, k: int, b: DirBatch)
    requires
        0 <= k <= bs.len(),
    ensures
        batched(bs.insert(k, b)) == batched(bs).add(b.files@.to_multiset()),
{
    lemma_batched_remove(bs.insert(k, b), k);
    assert(bs.insert(k, b).remove(k) =~= bs);
}

fn find_batch(groups: &Vec<DirBatch>, parent: &String) -> (r: Option<usize>)
    ensures
        match r {
            Some(j) => j < groups@.len() && groups@[j as int].path@ == parent@,
            None => forall|k: int| 0 <= k < groups@.len() ==> (#[trigger] groups@[k]).path@ != parent@,
        },
{
    let mut i: usize = groups.len();
    while i > 0
        invariant
            i <= groups@.len(),
            forall|k: int| i <= k < groups@.len() ==> (#[trigger] groups@[k]).path@ != parent@,
        decreases i,
    {
        i = i - 1;
        if groups[i].path == *parent {
            return Some(i);
        }
    }
    None
}

fn index_of_deepest(groups: &Vec<DirBatch>) -> (r: usize)
    requires
        groups@.len() > 0,
    ensures
        r < groups@.len(),
        forall|k: int| 0 <= k < groups@.len() ==> groups@[r as int].depth >= (#[trigger] groups@[k]).depth,
{
    let mut best: usize = 0;
    let mut i: usize = 1;
    while i < groups.len()
        invariant
            best < i <= groups@.len(),
            forall|k: int| 0 <= k < i ==> groups@[best as int].depth >= (#[trigger] groups@[k]).depth,
        decreases groups@.len() - i,
    {
        if groups[i].depth > groups[best].depth {
            best = i;
        }
        i = i + 1;
    }
    best
}

/// Groups the entries that pass the filter by directory, one batch per directory,
/// deeper directories first.
pub fn group_into_batches(entries: Vec<CandidateEntry>) -> (r: Vec<DirBatch>)
    ensures
        forall|i: int| 0 <= i < r@.len() ==> batch_wf(#[trigger] r@[i]),
        paths_distinct(r@),
        deepest_first(r@),
        batched(r@) == kept(entries@),
{
    let mut rest = entries;
    let mut groups: Vec<DirBatch> = Vec::new();
    while rest.len() > 0
        invariant
            forall|i: int| 0 <= i < groups@.len() ==> batch_wf(#[trigger] groups@[i]),
            paths_distinct(groups@),
            batched(groups@).add(kept(rest@)) == kept(entries@),
        decreases rest@.len(),
    {
        let ghost before_rest = rest@;
        let ghost before_groups = groups@;
        let e = rest.pop().unwrap();
        assert(before_rest.drop_last() =~= rest@);
        if should_process_file(e.file_name.as_str(), e.size) {
            match find_batch(&groups, &e.parent) {
                Some(j) => {
                    let mut b = groups.remove(j);
                    proof {
                        lemma_batched_remove(before_groups, j as int);
                    }
                    let ghost old_files = b.files@;
                    b.files.push(e);
                    proof {
                        broadcast use vstd::seq_lib::group_to_multiset_ensures;
                        assert(b.files@ =~= old_files.push(e));
                    }
                    assert(b.files@.to_multiset() =~= old_files.to_multiset().insert(e));
                    assert(batch_wf(b));
                    let ghost removed = groups@;
                    groups.insert(j, b);
                    proof {
                        lemma_batched_insert(removed, j as int, b);
                        assert(groups@ =~= before_groups.update(j as int, b));
                        assert(batched(groups@).add(kept(rest@)) =~= kept(entries@));
                    }
                },
                None => {
                    let depth = path_depth(e.parent.as_str());
                    let path = e.parent.clone();
                    let mut files: Vec<CandidateEntry> = Vec::new();
                    files.push(e);
                    let b = DirBatch { path, files, depth };
                    assert(b.files@ =~= seq![e]);
                    assert(batch_wf(b));
                    groups.push(b);
                    proof {
                        assert(groups@.drop_last() =~= before_groups);
                        assert(b.files@.to_multiset() =~= Multiset::singleton(e)) by {
                            broadcast use vstd::seq_lib::group_to_multiset_ensures;
                            assert(seq![e] =~= Seq::<CandidateEntry>::empty().push(e));
                            assert(Seq::<CandidateEntry>::empty().to_multiset() =~= Multiset::empty());
                        }
                        assert(batched(groups@).add(kept(rest@)) =~= kept(entries@));
                    }
                },
            }
        } else {
            assert(batched(groups@).add(kept(rest@)) =~= kept(entries@));
        }
    }
    assert(kept(rest@) =~= Multiset::empty());
    let mut out: Vec<DirBatch> = Vec::new();
    while groups.len() > 0
        invariant
            forall|i: int| 0 <= i < groups@.len() ==> batch_wf(#[trigger] groups@[i]),
            forall|i: int| 0 <= i < out@.len() ==> batch_wf(#[trigger] out@[i]),
            paths_distinct(groups@),
            paths_distinct(out@),
            forall|i: int, j: int|
                0 <= i < out@.len() && 0 <= j < groups@.len() ==> out@[i].path@ != groups@[j].path@
                    && out@[i].depth >= groups@[j].depth,
            deepest_first(out@),
            batched(out@).add(batched(groups@)) == kept(entries@),
        decreases groups@.len(),
    {
        let k = index_of_deepest(&groups);
        let ghost before_groups = groups@;
        let ghost before_out = out@;
        let b = groups.remove(k);
        proof {
            lemma_batched_remove(before_groups, k as int);
        }
        out.push(b);
        proof {
            assert(out@.drop_last() =~= before_out);
            assert(forall|j: int|
                0 <= j < groups@.len() ==> #[trigger] groups@[j] == before_groups[if j < k {
                    j
                } else {
                    j + 1
                }]);
            assert(batched(out@).add(batched(groups@)) =~= kept(entries@));
        }
    }
    assert(batched(groups@) =~= Multiset::empty());
    assert(batched(out@) =~= kept(entries@));
    out
}

proof fn lemma_kept_only_included(entries: Seq<CandidateEntry>, e: CandidateEntry)
    requires
        !included_entry(e),
    ensures
        kept(entries).count(e) == 0,
    decreases entries.len(),
{
    if entries.len() > 0 {
        lemma_kept_only_included(entries.drop_last(), e);
    }
}

/// A file that is hidden or shorter than the size floor is in no batch.
pub proof fn lemma_filtered_file_in_no_batch(entries: Seq<CandidateEntry>, e: CandidateEntry)
    requires
        !is_included(e.file_name@, e.size),
    ensures
        kept(entries).count(e) == 0,
{
    lemma_kept_only_included(entries, e);
}

} // verus!
