use vstd::prelude::*;
use dashmap::DashMap;
use dashmap::mapref::entry::Entry;
use crate::record::FileMeta;

verus! {

#[verifier::external_type_specification]
#[verifier::external_body]
#[verifier::reject_recursive_types(K)]
#[verifier::reject_recursive_types(V)]
#[verifier::reject_recursive_types(S)]
pub struct ExDashMap<K, V, S>(DashMap<K, V, S>);

/// The entries of a fingerprint map: fingerprint to the path that first produced it.
pub uninterp spec fn seen_entries(m: DashMap<String, String>) -> Map<Seq<char>, Seq<char>>;

/// Relies on `DashMap::new`: a map with no entries.
#[verifier::external_body]
fn new_seen_map() -> (r: DashMap<String, String>)
    ensures
        seen_entries(r).dom() == Set::<Seq<char>>::empty(),
{
    DashMap::new()
}

/// Relies on `DashMap::entry` and `VacantEntry::insert`: with the key's shard locked,
/// an absent key is inserted with the value and a present one is left as it is.
#[verifier::external_body]
fn insert_if_absent(m: &mut DashMap<String, String>, key: String, value: String) -> (r: bool)
    ensures
        r == !seen_entries(*old(m)).contains_key(key@),
        seen_entries(*final(m)) == if r {
            seen_entries(*old(m)).insert(key@, value@)
        } else {
            seen_entries(*old(m))
        },
{
    match m.entry(key) {
        Entry::Occupied(_) => false,
        Entry::Vacant(slot) => {
            slot.insert(value);
            true
        },
    }
}

/// Strict lexicographic order on texts, by the chars' code points.
pub open spec fn text_lt(a: Seq<char>, b: Seq<char>) -> bool
    decreases a.len(),
{
    if b.len() == 0 {
        false
    } else if a.len() == 0 {
        true
    } else if a[0] != b[0] {
        (a[0] as int) < (b[0] as int)
    } else {
        text_lt(a.drop_first(), b.drop_first())
    }
}

/// Relies on `slice::sort_by` with `String::cmp` on the paths: the same records,
/// reordered so that the paths ascend. `String` compares UTF-8 bytes, which order
/// texts as their code points do.
#[verifier::external_body]
fn sort_by_path(v: &mut Vec<FileMeta>)
    ensures
        final(v)@.to_multiset() == old(v)@.to_multiset(),
        forall|i: int, j: int|
            0 <= i < j < final(v)@.len() ==> !text_lt(final(v)@[j].filename@, final(v)@[i].filename@),
{
    v.sort_by(|a, b| a.filename.cmp(&b.filename));
}

/// The fingerprints of `rs`.
pub open spec fn hash_set(rs: Seq<FileMeta>) -> Set<Seq<char>> {
    Set::new(|h: Seq<char>| exists|i: int| 0 <= i < rs.len() && rs[i].hash@ == h)
}

/// No two records of `rs` share a fingerprint.
pub open spec fn hashes_distinct(rs: Seq<FileMeta>) -> bool {
    forall|i: int, j: int| 0 <= i < rs.len() && 0 <= j < rs.len() && i != j ==> rs[i].hash@ != rs[j].hash@
}

/// No two records of `rs` share a path.
pub open spec fn paths_unique(rs: Seq<FileMeta>) -> bool {
    forall|i: int, j: int|
        0 <= i < rs.len() && 0 <= j < rs.len() && i != j ==> rs[i].filename@ != rs[j].filename@
}

/// The records of `rs` that are admitted, in order, when the fingerprints of `seen`
/// are already taken: each record whose fingerprint was neither taken nor met earlier in `rs`.
pub open spec fn admitted(seen: Set<Seq<char>>, rs: Seq<FileMeta>) -> Seq<FileMeta>
    decreases rs.len(),
{
    if rs.len() == 0 {
        Seq::empty()
    } else {
        let prev = admitted(seen, rs.drop_last());
        let r = rs.last();
        if seen.contains(r.hash@) || hash_set(rs.drop_last()).contains(r.hash@) {
            prev
        } else {
            prev.push(r)
        }
    }
}

/// The registry of fingerprints and the records admitted so far.
pub struct ScanState {
    seen: DashMap<String, String>,
    records: Vec<FileMeta>,
}

impl ScanState {
    /// The records admitted so far, in order of admission.
    pub closed spec fn records(&self) -> Seq<FileMeta> {
        self.records@
    }

    /// The fingerprints admitted so far, each with the path of its representative.
    pub closed spec fn seen(&self) -> Map<Seq<char>, Seq<char>> {
        seen_entries(self.seen)
    }

    /// One record per admitted fingerprint, and that record's path is the one
    /// the registry holds.
    pub open spec fn wf(&self) -> bool {
        &&& self.seen().dom() == hash_set(self.records())
        &&& hashes_distinct(self.records())
        &&& forall|i: int|
            0 <= i < self.records().len() ==> self.seen()[(#[trigger] self.records()[i]).hash@]
                == self.records()[i].filename@
    }

    /// An empty registry.
    pub fn new() -> (r: ScanState)
        ensures
            r.wf(),
            r.records() == Seq::<FileMeta>::empty(),
            r.seen().dom() == Set::<Seq<char>>::empty(),
    {
        let r = ScanState { seen: new_seen_map(), records: Vec::new() };
        assert(hash_set(r.records()) =~= Set::empty());
        r
    }

    /// Admits `meta` if its fingerprint is new, in one check-and-insert; returns
    /// whether it was admitted.
    pub fn admit_record(&mut self, meta: FileMeta) -> (r: bool)
        requires
            old(self).wf(),
        ensures
            final(self).wf(),
            r == !old(self).seen().contains_key(meta.hash@),
            final(self).records() == if r {
                old(self).records().push(meta)
            } else {
                old(self).records()
            },
            final(self).seen().dom() == old(self).seen().dom().insert(meta.hash@),
    {
        let ghost before = self.records@;
        let key = meta.hash.clone();
        let value = meta.filename.clone();
        let fresh = insert_if_absent(&mut self.seen, key, value);
        if fresh {
            self.records.push(meta);
            assert(hash_set(self.records@) =~= hash_set(before).insert(meta.hash@)) by {
                assert(self.records@[before.len() as int] == meta);
                assert forall|h: Seq<char>| hash_set(before).contains(h) implies
                    hash_set(self.records@).contains(h) by {
                    let i = choose|i: int| 0 <= i < before.len() && before[i].hash@ == h;
                    assert(self.records@[i] == before[i]);
                }
            }
            assert forall|i: int| 0 <= i < self.records@.len() implies self.seen()[(
            #[trigger] self.records()[i]).hash@] == self.records()[i].filename@ by {
                if i < before.len() {
                    assert(self.records@[i] == before[i]);
                    assert(hash_set(before).contains(before[i].hash@));
                }
            }
            assert(hashes_distinct(self.records@)) by {
                assert forall|i: int| 0 <= i < before.len() implies #[trigger] before[i].hash@ != meta.hash@ by {
                    assert(hash_set(before).contains(before[i].hash@));
                }
            }
        } else {
            assert(old(self).seen().dom().insert(meta.hash@) =~= old(self).seen().dom());
        }
        fresh
    }

    /// Admits each record of `metas` in order; returns how many were admitted.
    pub fn admit_all(&mut self, metas: Vec<FileMeta>) -> (r: usize)
        requires
            old(self).wf(),
        ensures
            final(self).wf(),
            final(self).records() == old(self).records() + admitted(old(self).seen().dom(), metas@),
            final(self).seen().dom() == old(self).seen().dom() + hash_set(metas@),
            r == admitted(old(self).seen().dom(), metas@).len(),
    {
        let ghost start = self.records();
        let ghost dom0 = self.seen().dom();
        let mut count: usize = 0;
        let mut i: usize = 0;
        while i < metas.len()
            invariant
                self.wf(),
                i <= metas@.len(),
                self.records() == start + admitted(dom0, metas@.subrange(0, i as int)),
                self.seen().dom() == dom0 + hash_set(metas@.subrange(0, i as int)),
                count == admitted(dom0, metas@.subrange(0, i as int)).len(),
                count <= i,
            decreases metas@.len() - i,
        {
            let ghost prefix = metas@.subrange(0, i as int);
            let ghost next = metas@.subrange(0, i + 1);
            assert(next.drop_last() =~= prefix);
            assert(next.last() == metas@[i as int]);
            assert(hash_set(next) =~= hash_set(prefix).insert(metas@[i as int].hash@)) by {
                assert forall|h: Seq<char>| hash_set(prefix).contains(h) implies hash_set(next).contains(h) by {
                    let k = choose|k: int| 0 <= k < prefix.len() && prefix[k].hash@ == h;
                    assert(next[k] == prefix[k]);
                }
                assert(next[i as int] == metas@[i as int]);
            }
            let m = metas[i].clone();
            let fresh = self.admit_record(m);
            if fresh {
                count = count + 1;
            }
            assert(self.records() =~= start + admitted(dom0, next));
            assert(self.seen().dom() =~= dom0 + hash_set(next));
            i = i + 1;
        }
        assert(metas@.subrange(0, i as int) =~= metas@);
        count
    }

    /// The inventory: the admitted records, sorted by path.
    pub fn finish(self) -> (r: Vec<FileMeta>)
        requires
            self.wf(),
        ensures
            r@.to_multiset() == self.records().to_multiset(),
            r@.len() == self.records().len(),
            hash_set(r@) == self.seen().dom(),
            hashes_distinct(r@),
            forall|i: int, j: int| 0 <= i < j < r@.len() ==> !text_lt(r@[j].filename@, r@[i].filename@),
    {
        let ghost before = self.records@;
        let mut v = self.records;
        sort_by_path(&mut v);
        proof {
            broadcast use vstd::seq_lib::group_to_multiset_ensures;
            lemma_same_multiset_same_hashes(before, v@);
        }
        v
    }
}

proof fn lemma_same_multiset_same_hashes(a: Seq<FileMeta>, b: Seq<FileMeta>)
    requires
        a.to_multiset() == b.to_multiset(),
        hashes_distinct(a),
    ensures
        a.len() == b.len(),
        hash_set(a) == hash_set(b),
        hashes_distinct(b),
{
    broadcast use vstd::seq_lib::group_to_multiset_ensures;
    assert(a.len() == b.len()) by {
        a.to_multiset_ensures();
        b.to_multiset_ensures();
    }
    assert forall|h: Seq<char>| hash_set(a).contains(h) <==> hash_set(b).contains(h) by {
        if hash_set(a).contains(h) {
            let i = choose|i: int| 0 <= i < a.len() && a[i].hash@ == h;
            assert(a.to_multiset().count(a[i]) > 0);
            assert(b.contains(a[i]));
        }
        if hash_set(b).contains(h) {
            let i = choose|i: int| 0 <= i < b.len() && b[i].hash@ == h;
            assert(b.to_multiset().count(b[i]) > 0);
            assert(a.contains(b[i]));
        }
    }
    assert(hash_set(a) =~= hash_set(b));
    assert forall|i: int, j: int| 0 <= i < b.len() && 0 <= j < b.len() && i != j implies b[i].hash@
        != b[j].hash@ by {
        if b[i].hash@ == b[j].hash@ {
            assert(b.to_multiset().count(b[i]) > 0);
            assert(b.to_multiset().count(b[j]) > 0);
            assert(a.contains(b[i]));
            assert(a.contains(b[j]));
            let ia = choose|k: int| 0 <= k < a.len() && a[k] == b[i];
            let ja = choose|k: int| 0 <= k < a.len() && a[k] == b[j];
            if ia == ja {
                // b[i] == b[j] as values, so the value occurs twice in b but once in a.
                assert(b[i] == b[j]);
                lemma_count_two(b, i, j);
                lemma_count_one(a, ia);
                assert(false);
            }
        }
    }
}

proof fn lemma_count_two(s: Seq<FileMeta>, i: int, j: int)
    requires
        0 <= i < s.len(),
        0 <= j < s.len(),
        i != j,
        s[i] == s[j],
    ensures
        s.to_multiset().count(s[i]) >= 2,
    decreases s.len(),
{
    broadcast use vstd::seq_lib::group_to_multiset_ensures;
    let last = s.len() - 1;
    assert(s =~= s.drop_last().push(s.last()));
    if i == last {
        assert(s.drop_last()[j] == s[j]);
        assert(s.drop_last().contains(s[j]));
        assert(s.drop_last().to_multiset().count(s[j]) >= 1);
    } else if j == last {
        assert(s.drop_last()[i] == s[i]);
        assert(s.drop_last().contains(s[i]));
        assert(s.drop_last().to_multiset().count(s[i]) >= 1);
    } else {
        lemma_count_two(s.drop_last(), i, j);
        assert(s.drop_last()[i] == s[i]);
    }
}

proof fn lemma_count_one(s: Seq<FileMeta>, k: int)
    requires
        0 <= k < s.len(),
        hashes_distinct(s),
    ensures
        s.to_multiset().count(s[k]) == 1,
    decreases s.len(),
{
    broadcast use vstd::seq_lib::group_to_multiset_ensures;
    let last = s.len() - 1;
    assert(s =~= s.drop_last().push(s.last()));
    if k == last {
        assert(!s.drop_last().contains(s[k])) by {
            if s.drop_last().contains(s[k]) {
                let m = choose|m: int| 0 <= m < s.drop_last().len() && s.drop_last()[m] == s[k];
                assert(s[m] == s[k]);
            }
        }
    } else {
        lemma_count_one(s.drop_last(), k);
        assert(s.drop_last()[k] == s[k]);
        assert(s.last() != s[k]);
    }
}


proof fn lemma_hash_set_push(s: Seq<FileMeta>, x: FileMeta)
    ensures
        hash_set(s.push(x)) == hash_set(s).insert(x.hash@),
{
    let t = s.push(x);
    assert forall|h: Seq<char>| hash_set(t).contains(h) <==> hash_set(s).insert(x.hash@).contains(h) by {
        if hash_set(s).contains(h) {
            let i = choose|i: int| 0 <= i < s.len() && s[i].hash@ == h;
            assert(t[i] == s[i]);
        }
        if hash_set(t).contains(h) {
            let i = choose|i: int| 0 <= i < t.len() && t[i].hash@ == h;
            if i < s.len() {
                assert(t[i] == s[i]);
            }
        }
        assert(t[s.len() as int] == x);
    }
    assert(hash_set(t) =~= hash_set(s).insert(x.hash@));
}

proof fn lemma_admitted_facts(seen: Set<Seq<char>>, rs: Seq<FileMeta>)
    ensures
        hashes_distinct(admitted(seen, rs)),
        hash_set(admitted(seen, rs)) == hash_set(rs).difference(seen),
        forall|k: int| 0 <= k < admitted(seen, rs).len() ==> rs.contains(#[trigger] admitted(seen, rs)[k]),
    decreases rs.len(),
{
    if rs.len() == 0 {
        assert(hash_set(rs) =~= Set::empty());
        assert(hash_set(admitted(seen, rs)) =~= Set::empty());
    } else {
        let p = rs.drop_last();
        let r = rs.last();
        let prev = admitted(seen, p);
        lemma_admitted_facts(seen, p);
        assert(rs =~= p.push(r));
        lemma_hash_set_push(p, r);
        assert forall|k: int| 0 <= k < prev.len() implies rs.contains(#[trigger] prev[k]) by {
            let i = choose|i: int| 0 <= i < p.len() && p[i] == prev[k];
            assert(rs[i] == p[i]);
        }
        if seen.contains(r.hash@) || hash_set(p).contains(r.hash@) {
            assert(hash_set(prev) =~= hash_set(rs).difference(seen));
        } else {
            lemma_hash_set_push(prev, r);
            assert(hash_set(prev.push(r)) =~= hash_set(rs).difference(seen));
            assert forall|k: int| 0 <= k < prev.len() implies #[trigger] prev[k].hash@ != r.hash@ by {
                assert(hash_set(prev).contains(prev[k].hash@));
            }
            assert(rs[rs.len() - 1] == r);
            assert(prev.push(r)[prev.len() as int] == r);
        }
    }
}

proof fn lemma_distinct_hash_count(s: Seq<FileMeta>)
    requires
        hashes_distinct(s),
    ensures
        hash_set(s).finite(),
        hash_set(s).len() == s.len(),
    decreases s.len(),
{
    if s.len() == 0 {
        assert(hash_set(s) =~= Set::empty());
    } else {
        let p = s.drop_last();
        assert(hashes_distinct(p));
        lemma_distinct_hash_count(p);
        assert(s =~= p.push(s.last()));
        lemma_hash_set_push(p, s.last());
        assert(!hash_set(p).contains(s.last().hash@)) by {
            if hash_set(p).contains(s.last().hash@) {
                let i = choose|i: int| 0 <= i < p.len() && p[i].hash@ == s.last().hash@;
                assert(s[i] == p[i]);
            }
        }
    }
}

/// Deduplication is exact: of records carrying K distinct fingerprints, exactly K
/// are admitted, one for each fingerprint.
pub proof fn lemma_dedup_exact(rs: Seq<FileMeta>)
    ensures
        admitted(Set::empty(), rs).len() == hash_set(rs).len(),
        hash_set(admitted(Set::empty(), rs)) == hash_set(rs),
        hashes_distinct(admitted(Set::empty(), rs)),
{
    lemma_admitted_facts(Set::empty(), rs);
    assert(hash_set(rs).difference(Set::empty()) =~= hash_set(rs));
    lemma_distinct_hash_count(admitted(Set::empty(), rs));
}

/// However the batches were admitted, a registry holds exactly one record for each
/// fingerprint it has seen.
pub proof fn lemma_one_record_per_fingerprint(state: ScanState)
    requires
        state.wf(),
    ensures
        state.seen().dom().finite(),
        state.records().len() == state.seen().dom().len(),
{
    lemma_distinct_hash_count(state.records());
}

/// What a rescan must reproduce of a record: size, content type and category.
pub open spec fn same_summary(x: FileMeta, y: FileMeta) -> bool {
    x.size == y.size && x.mime@ == y.mime@ && x.filetype@ == y.filetype@
}

/// Two scans of the same files, admitted in any two orders, give inventories with the
/// same fingerprints, and for each fingerprint the same size, content type and category,
/// provided that the files sharing a fingerprint agree on those. The path that
/// represents a fingerprint may differ.
pub proof fn lemma_rescan_same_summary(a: Seq<FileMeta>, b: Seq<FileMeta>)
    requires
        forall|x: FileMeta| a.contains(x) <==> b.contains(x),
        forall|x: FileMeta, y: FileMeta|
            a.contains(x) && a.contains(y) && x.hash@ == y.hash@ ==> same_summary(x, y),
    ensures
        hash_set(admitted(Set::empty(), a)) == hash_set(admitted(Set::empty(), b)),
        forall|i: int, j: int|
            0 <= i < admitted(Set::empty(), a).len() && 0 <= j < admitted(Set::empty(), b).len()
                && admitted(Set::empty(), a)[i].hash@ == admitted(Set::empty(), b)[j].hash@
                ==> same_summary(admitted(Set::empty(), a)[i], admitted(Set::empty(), b)[j]),
{
    lemma_dedup_exact(a);
    lemma_dedup_exact(b);
    lemma_admitted_facts(Set::empty(), a);
    lemma_admitted_facts(Set::empty(), b);
    assert forall|h: Seq<char>| hash_set(a).contains(h) <==> hash_set(b).contains(h) by {
        if hash_set(a).contains(h) {
            let i = choose|i: int| 0 <= i < a.len() && a[i].hash@ == h;
            assert(a.contains(a[i]));
            let j = choose|j: int| 0 <= j < b.len() && b[j] == a[i];
        }
        if hash_set(b).contains(h) {
            let i = choose|i: int| 0 <= i < b.len() && b[i].hash@ == h;
            assert(b.contains(b[i]));
            let j = choose|j: int| 0 <= j < a.len() && a[j] == b[i];
        }
    }
    assert(hash_set(a) =~= hash_set(b));
    let sa = admitted(Set::empty(), a);
    let sb = admitted(Set::empty(), b);
    assert forall|i: int, j: int|
        0 <= i < sa.len() && 0 <= j < sb.len() && sa[i].hash@ == sb[j].hash@ implies same_summary(
        sa[i],
        sb[j],
    ) by {
        assert(a.contains(sa[i]));
        assert(b.contains(sb[j]));
    }
}

proof fn lemma_text_lt_total(x: Seq<char>, y: Seq<char>)
    requires
        x != y,
    ensures
        text_lt(x, y) || text_lt(y, x),
    decreases x.len(),
{
    if x.len() > 0 && y.len() > 0 && x[0] == y[0] {
        assert(x.drop_first() != y.drop_first()) by {
            if x.drop_first() == y.drop_first() {
                assert(x =~= seq![x[0]] + x.drop_first());
                assert(y =~= seq![y[0]] + y.drop_first());
            }
        }
        lemma_text_lt_total(x.drop_first(), y.drop_first());
    } else if x.len() > 0 && y.len() > 0 {
        assert((x[0] as int) != (y[0] as int));
    } else if x.len() == 0 && y.len() == 0 {
        assert(x =~= y);
    }
}

/// The inventory is strictly ascending by path: sorted, with no path twice.
pub proof fn lemma_inventory_strictly_ascending(v: Seq<FileMeta>)
    requires
        forall|i: int, j: int| 0 <= i < j < v.len() ==> !text_lt(v[j].filename@, v[i].filename@),
        paths_unique(v),
    ensures
        forall|i: int, j: int| 0 <= i < j < v.len() ==> text_lt(v[i].filename@, v[j].filename@),
{
    assert forall|i: int, j: int| 0 <= i < j < v.len() implies text_lt(v[i].filename@, v[j].filename@) by {
        lemma_text_lt_total(v[i].filename@, v[j].filename@);
    }
}

} // verus!
