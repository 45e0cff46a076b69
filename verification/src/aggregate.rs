//! The aggregator: a running total of all regular-file sizes plus an index
//! of the files whose size exceeds the threshold, keyed by path.

use vstd::prelude::*;

verus! {

/// One filesystem node discovered during a traversal, as handed to the
/// aggregator: its path, its size in bytes, and its classification.
pub struct Entry {
    pub path: String,
    pub size: u64,
    pub is_file: bool,
    pub is_symlink: bool,
}

/// Whether an entry contributes to the statistics: only regular files that
/// are not symbolic links are counted.
pub open spec fn counted(e: Entry) -> bool {
    e.is_file && !e.is_symlink
}

/// How many bytes an entry contributes to the running total.
pub open spec fn contribution(e: Entry) -> int {
    if counted(e) {
        e.size as int
    } else {
        0
    }
}

/// The sum of the sizes of every counted entry in the sequence.
pub open spec fn total_of(s: Seq<Entry>) -> int
    decreases s.len(),
{
    if s.len() == 0 {
        0
    } else {
        total_of(s.drop_last()) + contribution(s.last())
    }
}

/// Whether an entry lands in the size index: counted and above the
/// threshold.
pub open spec fn indexed(e: Entry) -> bool {
    counted(e) && e.size > crate::MIN_FILE_SIZE
}

/// The size index a sequence of entries produces: every counted entry whose
/// size exceeds the threshold maps its path to its size; later entries win.
pub open spec fn index_of(s: Seq<Entry>) -> Map<Seq<char>, u64>
    decreases s.len(),
{
    if s.len() == 0 {
        Map::empty()
    } else if indexed(s.last()) {
        index_of(s.drop_last()).insert(s.last().path@, s.last().size)
    } else {
        index_of(s.drop_last())
    }
}

/// No two entries that land in the size index share a path — true of every
/// well-formed traversal, which discovers each node once.
pub open spec fn unique_indexed_paths(s: Seq<Entry>) -> bool {
    forall|i: int, j: int|
        0 <= i < j < s.len() && indexed(s[i]) && indexed(s[j]) ==> s[i].path@ != s[j].path@
}

/// The mapping denoted by a sequence of (path, size) pairs; later pairs win.
pub open spec fn pairs_to_map(s: Seq<(String, u64)>) -> Map<Seq<char>, u64>
    decreases s.len(),
{
    if s.len() == 0 {
        Map::empty()
    } else {
        pairs_to_map(s.drop_last()).insert(s.last().0@, s.last().1)
    }
}

/// No two pairs in the sequence share a path.
pub open spec fn unique_paths(s: Seq<(String, u64)>) -> bool {
    forall|i: int, j: int| 0 <= i < j < s.len() ==> s[i].0@ != s[j].0@
}

/// Every recorded size exceeds the index threshold.
pub open spec fn all_large(s: Seq<(String, u64)>) -> bool {
    forall|i: int| 0 <= i < s.len() ==> s[i].1 > crate::MIN_FILE_SIZE
}

/// The concurrency-safe accumulator of one scan, seen here in its frozen,
/// single-owner form: callers serialize access to `record` and only read
/// the results once all traversal workers have finished.
pub struct Aggregator {
    total: u64,
    index: Vec<(String, u64)>,
}

impl Aggregator {
    /// The running total of bytes recorded so far.
    pub closed spec fn spec_total(self) -> u64 {
        self.total
    }

    /// The recorded (path, size) pairs of the size index, in insertion order.
    pub closed spec fn entries(self) -> Seq<(String, u64)> {
        self.index@
    }

    /// The size index as a mapping from path to size.
    pub open spec fn index_map(self) -> Map<Seq<char>, u64> {
        pairs_to_map(self.entries())
    }

    /// Well-formed: indexed paths are unique and every indexed size exceeds
    /// the threshold.
    pub open spec fn wf(self) -> bool {
        unique_paths(self.entries()) && all_large(self.entries())
    }

    /// A fresh aggregator: zero total, empty index.
    pub fn new() -> (a: Aggregator)
        ensures
            a.wf(),
            a.spec_total() == 0,
            a.entries() == Seq::<(String, u64)>::empty(),
            a.index_map() == Map::<Seq<char>, u64>::empty(),
    {
        Aggregator { total: 0, index: Vec::new() }
    }

    /// Record one regular file: add `size` to the running total always, and
    /// when `size` exceeds the threshold also enter `(path, size)` into the
    /// size index, replacing any earlier entry for the same path.
    #[verifier::loop_isolation(false)]
    pub fn record(&mut self, path: String, size: u64)
        requires
            old(self).wf(),
            old(self).spec_total() + size <= u64::MAX,
        ensures
            final(self).wf(),
            final(self).spec_total() == old(self).spec_total() + size,
            size > crate::MIN_FILE_SIZE ==> final(self).index_map() == old(self).index_map().insert(path@, size),
            size <= crate::MIN_FILE_SIZE ==> final(self).entries() == old(self).entries(),
    {
        let ghost gpath = path@;
        self.total = self.total + size;
        if size > crate::MIN_FILE_SIZE {
            let n = self.index.len();
            let mut i: usize = 0;
            while i < n
                invariant
                    i <= n,
                    n == self.index@.len(),
                    self.index@ == old(self).entries(),
                    self.total == old(self).spec_total() + size,
                    forall|m: int| 0 <= m < i ==> self.index@[m].0@ != gpath,
                decreases n - i,
            {
                if self.index[i].0 == path {
                    self.index.set(i, (path, size));
                    proof {
                        let s = old(self).entries();
                        let gi = i as int;
                        assert(self.index@ == s.update(gi, self.index@[gi]));
                        assert(self.index@[gi].0@ == gpath && self.index@[gi].1 == size);
                        lemma_pairs_to_map_update(s, gi, self.index@[gi]);
                        assert forall|a: int, b: int| 0 <= a < b < self.index@.len() implies self.index@[a].0@ != self.index@[b].0@ by {
                            assert(self.index@[a].0@ == s[a].0@);
                            assert(self.index@[b].0@ == s[b].0@);
                        }
                    }
                    return;
                }
                i += 1;
            }
            self.index.push((path, size));
            proof {
                let s = old(self).entries();
                assert(self.index@.drop_last() =~= s);
                assert(self.index@.last().0@ == gpath && self.index@.last().1 == size);
                assert forall|a: int, b: int| 0 <= a < b < self.index@.len() implies self.index@[a].0@ != self.index@[b].0@ by {
                    if b < self.index@.len() - 1 {
                        assert(self.index@[a] == s[a] && self.index@[b] == s[b]);
                    } else {
                        assert(self.index@[a] == s[a]);
                    }
                }
            }
        }
    }

    /// Apply the traversal's per-entry rule: a regular file that is not a
    /// symbolic link is recorded; every other entry leaves the aggregator
    /// unchanged.
    pub fn visit(&mut self, e: &Entry)
        requires
            old(self).wf(),
            old(self).spec_total() + contribution(*e) <= u64::MAX,
        ensures
            final(self).wf(),
            final(self).spec_total() == old(self).spec_total() + contribution(*e),
            indexed(*e) ==> final(self).index_map() == old(self).index_map().insert(
                e.path@,
                e.size,
            ),
            !indexed(*e) ==> final(self).entries() == old(self).entries(),
    {
        if e.is_file && !e.is_symlink {
            self.record(e.path.clone(), e.size);
        }
    }

    /// The running total so far, readable between records.
    pub fn total(&self) -> (t: u64)
        ensures
            t == self.spec_total(),
    {
        self.total
    }

    /// Freeze the aggregator once the traversal barrier has been reached:
    /// hand back the final total and the recorded index.
    pub fn finalize(self) -> (r: (u64, Vec<(String, u64)>))
        ensures
            r.0 == self.spec_total(),
            r.1@ == self.entries(),
    {
        (self.total, self.index)
    }

    /// Run one whole scan over a sequence of discovered entries, in order,
    /// starting from an empty aggregator: the total is exactly the sum of
    /// the counted sizes and the index is exactly the large-file mapping.
    pub fn scan(entries: &Vec<Entry>) -> (a: Aggregator)
        requires
            total_of(entries@) <= u64::MAX,
        ensures
            a.wf(),
            a.spec_total() == total_of(entries@),
            a.index_map() == index_of(entries@),
    {
        let mut a = Aggregator::new();
        let n = entries.len();
        let mut i: usize = 0;
        proof {
            assert(entries@.take(0) =~= Seq::<Entry>::empty());
        }
        while i < n
            invariant
                i <= n,
                n == entries@.len(),
                total_of(entries@) <= u64::MAX,
                a.wf(),
                a.spec_total() == total_of(entries@.take(i as int)),
                a.index_map() == index_of(entries@.take(i as int)),
            decreases n - i,
        {
            proof {
                assert(entries@.take(i + 1).drop_last() =~= entries@.take(i as int));
                assert(entries@.take(i + 1).last() == entries@[i as int]);
                lemma_total_of_take_bound(entries@, i + 1);
            }
            a.visit(&entries[i]);
            i += 1;
        }
        proof {
            assert(entries@.take(n as int) =~= entries@);
        }
        a
    }
}

/// A prefix of a sequence of entries never sums to more than the whole.
proof fn lemma_total_of_take_bound(s: Seq<Entry>, j: int)
    requires
        0 <= j <= s.len(),
    ensures
        total_of(s.take(j)) <= total_of(s),
    decreases s.len() - j,
{
    if j == s.len() {
        assert(s.take(j) =~= s);
    } else {
        lemma_total_of_take_bound(s, j + 1);
        assert(s.take(j + 1).drop_last() =~= s.take(j));
        assert(s.take(j + 1).last() == s[j]);
    }
}

/// Removing one entry removes exactly its contribution from the sum.
proof fn lemma_total_of_remove(s: Seq<Entry>, i: int)
    requires
        0 <= i < s.len(),
    ensures
        total_of(s.remove(i)) == total_of(s) - contribution(s[i]),
    decreases s.len(),
{
    let l = s.len() - 1;
    if i == l {
        assert(s.remove(i) =~= s.drop_last());
    } else {
        assert(s.remove(i).drop_last() =~= s.drop_last().remove(i));
        assert(s.remove(i).last() == s.last());
        assert(s.drop_last()[i] == s[i]);
        lemma_total_of_remove(s.drop_last(), i);
    }
}

/// The running total does not depend on the order in which the workers
/// delivered the entries: any two arrangements of the same entries sum to
/// the same total, so the total is invariant under the parallelism degree.
pub proof fn lemma_total_of_permutation(s1: Seq<Entry>, s2: Seq<Entry>)
    requires
        s1.to_multiset() == s2.to_multiset(),
    ensures
        total_of(s1) == total_of(s2),
    decreases s1.len(),
{
    broadcast use vstd::seq_lib::group_to_multiset_ensures;

    if s1.len() == 0 {
        assert(s1.to_multiset().len() == s1.len());
        assert(s2.to_multiset().len() == s2.len());
    } else {
        let l = s1.len() - 1;
        let e = s1.last();
        assert(s1[l] == e);
        assert(s1.contains(e));
        assert(s2.to_multiset().count(e) > 0);
        assert(s2.contains(e));
        let j = choose|j: int| 0 <= j < s2.len() && s2[j] == e;
        assert(s1.drop_last() =~= s1.remove(l));
        assert(s1.remove(l).to_multiset() == s1.to_multiset().remove(e));
        assert(s2.remove(j).to_multiset() == s2.to_multiset().remove(e));
        lemma_total_of_remove(s2, j);
        lemma_total_of_permutation(s1.drop_last(), s2.remove(j));
    }
}

/// Removing one entry removes exactly its insertion (if any) from the index
/// mapping, provided no other entry re-inserts the same path.
proof fn lemma_index_of_remove(s: Seq<Entry>, j: int)
    requires
        0 <= j < s.len(),
        unique_indexed_paths(s),
    ensures
        indexed(s[j]) ==> index_of(s) == index_of(s.remove(j)).insert(s[j].path@, s[j].size),
        !indexed(s[j]) ==> index_of(s) == index_of(s.remove(j)),
    decreases s.len(),
{
    let l = s.len() - 1;
    if j == l {
        assert(s.remove(j) =~= s.drop_last());
    } else {
        let d = s.drop_last();
        assert(s.remove(j).drop_last() =~= d.remove(j));
        assert(s.remove(j).last() == s.last());
        assert(d[j] == s[j]);
        assert forall|a: int, b: int|
            0 <= a < b < d.len() && indexed(d[a]) && indexed(d[b]) implies d[a].path@
            != d[b].path@ by {
            assert(d[a] == s[a] && d[b] == s[b]);
        }
        lemma_index_of_remove(d, j);
        if indexed(s.last()) && indexed(s[j]) {
            assert(s[j].path@ != s[l].path@);
            assert(index_of(d.remove(j)).insert(s[j].path@, s[j].size).insert(
                s.last().path@,
                s.last().size,
            ) =~= index_of(d.remove(j)).insert(s.last().path@, s.last().size).insert(
                s[j].path@,
                s[j].size,
            ));
        }
    }
}

/// The size index does not depend on the order in which the workers
/// delivered the entries: two arrangements of the same entries, with no
/// path indexed twice, produce the same path-to-size mapping.
pub proof fn lemma_index_of_permutation(s1: Seq<Entry>, s2: Seq<Entry>)
    requires
        s1.to_multiset() == s2.to_multiset(),
        unique_indexed_paths(s1),
        unique_indexed_paths(s2),
    ensures
        index_of(s1) == index_of(s2),
    decreases s1.len(),
{
    broadcast use vstd::seq_lib::group_to_multiset_ensures;

    if s1.len() == 0 {
        assert(s1.to_multiset().len() == s1.len());
        assert(s2.to_multiset().len() == s2.len());
    } else {
        let l = s1.len() - 1;
        let e = s1.last();
        assert(s1[l] == e);
        assert(s1.contains(e));
        assert(s2.to_multiset().count(e) > 0);
        assert(s2.contains(e));
        let j = choose|j: int| 0 <= j < s2.len() && s2[j] == e;
        assert(s1.drop_last() =~= s1.remove(l));
        assert(s1.remove(l).to_multiset() == s1.to_multiset().remove(e));
        assert(s2.remove(j).to_multiset() == s2.to_multiset().remove(e));
        let d1 = s1.drop_last();
        let r2 = s2.remove(j);
        assert forall|a: int, b: int|
            0 <= a < b < d1.len() && indexed(d1[a]) && indexed(d1[b]) implies d1[a].path@
            != d1[b].path@ by {
            assert(d1[a] == s1[a] && d1[b] == s1[b]);
        }
        assert forall|a: int, b: int|
            0 <= a < b < r2.len() && indexed(r2[a]) && indexed(r2[b]) implies r2[a].path@
            != r2[b].path@ by {
            let sa = if a < j {
                a
            } else {
                a + 1
            };
            let sb = if b < j {
                b
            } else {
                b + 1
            };
            assert(r2[a] == s2[sa] && r2[b] == s2[sb]);
        }
        lemma_index_of_permutation(d1, r2);
        lemma_index_of_remove(s2, j);
    }
}

/// Scanning an unchanged tree twice: however the two runs ordered the same
/// entries — one worker or many — they compute the same running total and
/// the same size-index mapping.
pub proof fn lemma_scan_order_independent(s1: Seq<Entry>, s2: Seq<Entry>)
    requires
        s1.to_multiset() == s2.to_multiset(),
        unique_indexed_paths(s1),
        unique_indexed_paths(s2),
    ensures
        total_of(s1) == total_of(s2),
        index_of(s1) == index_of(s2),
{
    lemma_total_of_permutation(s1, s2);
    lemma_index_of_permutation(s1, s2);
}

/// In a uniquely-keyed index, each recorded pair is found in the denoted
/// mapping exactly as written, and every key of the mapping was recorded.
pub(crate) proof fn lemma_pairs_to_map_props(s: Seq<(String, u64)>)
    requires
        unique_paths(s),
    ensures
        forall|i: int|
            0 <= i < s.len() ==> pairs_to_map(s).contains_key(#[trigger] s[i].0@)
                && pairs_to_map(s)[s[i].0@] == s[i].1,
        forall|k: Seq<char>|
            #[trigger] pairs_to_map(s).contains_key(k) ==> exists|i: int|
                0 <= i < s.len() && s[i].0@ == k,
    decreases s.len(),
{
    if s.len() > 0 {
        let l = s.len() - 1;
        let d = s.drop_last();
        assert forall|a: int, b: int| 0 <= a < b < d.len() implies d[a].0@ != d[b].0@ by {
            assert(d[a] == s[a] && d[b] == s[b]);
        }
        lemma_pairs_to_map_props(d);
        assert forall|i: int| 0 <= i < s.len() implies pairs_to_map(s).contains_key(
            #[trigger] s[i].0@,
        ) && pairs_to_map(s)[s[i].0@] == s[i].1 by {
            if i < l {
                assert(d[i] == s[i]);
                assert(s[i].0@ != s[l].0@);
            }
        }
        assert forall|k: Seq<char>| #[trigger] pairs_to_map(s).contains_key(k) implies exists|i: int|
            0 <= i < s.len() && s[i].0@ == k by {
            if k != s[l].0@ {
                assert(pairs_to_map(d).contains_key(k));
                let i = choose|i: int| 0 <= i < d.len() && d[i].0@ == k;
                assert(s[i].0@ == k);
            } else {
                assert(s[l].0@ == k);
            }
        }
    }
}

/// Removing one pair from a uniquely-keyed index removes exactly its key
/// from the denoted mapping.
pub(crate) proof fn lemma_pairs_to_map_remove(s: Seq<(String, u64)>, j: int)
    requires
        0 <= j < s.len(),
        unique_paths(s),
    ensures
        pairs_to_map(s.remove(j)) == pairs_to_map(s).remove(s[j].0@),
    decreases s.len(),
{
    let l = s.len() - 1;
    let d = s.drop_last();
    assert forall|a: int, b: int| 0 <= a < b < d.len() implies d[a].0@ != d[b].0@ by {
        assert(d[a] == s[a] && d[b] == s[b]);
    }
    if j == l {
        assert(s.remove(j) =~= d);
        lemma_pairs_to_map_props(d);
        assert(!pairs_to_map(d).contains_key(s[l].0@)) by {
            if pairs_to_map(d).contains_key(s[l].0@) {
                let i = choose|i: int| 0 <= i < d.len() && d[i].0@ == s[l].0@;
                assert(s[i].0@ == s[l].0@);
            }
        }
        assert(pairs_to_map(d).insert(s[l].0@, s[l].1).remove(s[l].0@) =~= pairs_to_map(d));
    } else {
        assert(s.remove(j).drop_last() =~= d.remove(j));
        assert(s.remove(j).last() == s.last());
        assert(d[j] == s[j]);
        lemma_pairs_to_map_remove(d, j);
        assert(s[j].0@ != s[l].0@);
        assert(pairs_to_map(d).remove(s[j].0@).insert(s.last().0@, s.last().1) =~= pairs_to_map(
            d,
        ).insert(s.last().0@, s.last().1).remove(s[j].0@));
    }
}

/// A uniquely-keyed index records exactly one pair per path: its length is
/// the number of distinct paths in the mapping it denotes. So the length of
/// a well-formed aggregator's index is the count of large files it saw.
pub proof fn lemma_pairs_to_map_dom_len(s: Seq<(String, u64)>)
    requires
        unique_paths(s),
    ensures
        pairs_to_map(s).dom().finite(),
        pairs_to_map(s).dom().len() == s.len(),
    decreases s.len(),
{
    broadcast use vstd::set::group_set_axioms;
    broadcast use vstd::map::group_map_axioms;

    if s.len() == 0 {
        assert(pairs_to_map(s).dom() =~= Set::<Seq<char>>::empty());
    } else {
        let l = s.len() - 1;
        let d = s.drop_last();
        assert forall|a: int, b: int| 0 <= a < b < d.len() implies d[a].0@ != d[b].0@ by {
            assert(d[a] == s[a] && d[b] == s[b]);
        }
        lemma_pairs_to_map_dom_len(d);
        lemma_pairs_to_map_props(d);
        assert(!pairs_to_map(d).contains_key(s[l].0@)) by {
            if pairs_to_map(d).contains_key(s[l].0@) {
                let i = choose|i: int| 0 <= i < d.len() && d[i].0@ == s[l].0@;
                assert(s[i].0@ == s[l].0@);
            }
        }
        assert(pairs_to_map(s).dom() =~= pairs_to_map(d).dom().insert(s[l].0@));
    }
}

/// Updating a pair in place at its own path is, on the denoted mapping, the
/// same as inserting the new pair.
proof fn lemma_pairs_to_map_update(s: Seq<(String, u64)>, i: int, p: (String, u64))
    requires
        0 <= i < s.len(),
        s[i].0@ == p.0@,
        unique_paths(s),
    ensures
        pairs_to_map(s.update(i, p)) == pairs_to_map(s).insert(p.0@, p.1),
    decreases s.len(),
{
    let l = s.len() - 1;
    let u = s.update(i, p);
    if i == l {
        assert(u.drop_last() =~= s.drop_last());
        assert(u.last() == p);
        assert(pairs_to_map(s.drop_last()).insert(s.last().0@, s.last().1).insert(p.0@, p.1)
            =~= pairs_to_map(s.drop_last()).insert(p.0@, p.1));
    } else {
        assert(u.drop_last() =~= s.drop_last().update(i, p));
        assert(u.last() == s.last());
        assert(s.drop_last()[i] == s[i]);
        assert forall|a: int, b: int| 0 <= a < b < s.drop_last().len() implies s.drop_last()[a].0@
            != s.drop_last()[b].0@ by {
            assert(s.drop_last()[a] == s[a] && s.drop_last()[b] == s[b]);
        }
        lemma_pairs_to_map_update(s.drop_last(), i, p);
        assert(s[i].0@ != s[l].0@);
        assert(pairs_to_map(s.drop_last()).insert(p.0@, p.1).insert(s.last().0@, s.last().1)
            =~= pairs_to_map(s.drop_last()).insert(s.last().0@, s.last().1).insert(p.0@, p.1));
    }
}

} // verus!
