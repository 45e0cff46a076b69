//! Reduction of the size index to a report: the top-K largest files sorted
//! descending by size, together with the grand total.

use vstd::prelude::*;
use vstd::multiset::Multiset;
use crate::aggregate::all_large;
use crate::aggregate::lemma_pairs_to_map_props;
use crate::aggregate::lemma_pairs_to_map_remove;
use crate::aggregate::pairs_to_map;
use crate::aggregate::unique_paths;

verus! {

/// Descending order by size over a sequence of (path, size) pairs.
pub open spec fn sorted_desc(s: Seq<(String, u64)>) -> bool {
    forall|i: int, j: int| 0 <= i <= j < s.len() ==> s[i].1 >= s[j].1
}

/// The sizes of a sequence of (path, size) pairs, in the same order.
pub open spec fn sizes_of(s: Seq<(String, u64)>) -> Seq<u64> {
    s.map_values(|p: (String, u64)| p.1)
}

/// The outcome of one scan: the grand total, the top-K largest indexed
/// files in descending size order, and how many files the index held.
pub struct Report {
    pub total: u64,
    pub top: Vec<(String, u64)>,
    pub indexed: usize,
}

/// Inserting into a sequence inserts into its multiset.
proof fn lemma_insert_to_multiset(s: Seq<(String, u64)>, k: int, x: (String, u64))
    requires
        0 <= k <= s.len(),
    ensures
        s.insert(k, x).to_multiset() == s.to_multiset().insert(x),
{
    broadcast use vstd::seq_lib::group_to_multiset_ensures;
    broadcast use vstd::multiset::group_multiset_axioms;

    let t = s.insert(k, x);
    assert(t.remove(k) =~= s);
    assert(t[k] == x);
    assert(t.remove(k).to_multiset() == t.to_multiset().remove(x));
    assert(t.contains(x));
    assert(t.to_multiset().count(x) > 0);
    assert(t.to_multiset() =~= s.to_multiset().insert(x));
}

/// Sort (path, size) pairs into descending size order by insertion; the
/// result holds exactly the pairs given.
#[verifier::loop_isolation(false)]
fn sort_desc(v: Vec<(String, u64)>) -> (r: Vec<(String, u64)>)
    ensures
        r@.to_multiset() == v@.to_multiset(),
        r@.len() == v@.len(),
        sorted_desc(r@),
{
    let mut rest = v;
    let mut out: Vec<(String, u64)> = Vec::new();
    proof {
        broadcast use vstd::seq_lib::group_to_multiset_ensures;
        broadcast use vstd::multiset::group_multiset_axioms;

        assert(out@.to_multiset().add(rest@.to_multiset()) =~= v@.to_multiset());
    }
    while rest.len() > 0
        invariant
            sorted_desc(out@),
            out@.to_multiset().add(rest@.to_multiset()) == v@.to_multiset(),
            out@.len() + rest@.len() == v@.len(),
        decreases rest@.len(),
    {
        let ghost out0 = out@;
        let ghost rest0 = rest@;
        let x = rest.pop().unwrap();
        let ghost gx = x;
        proof {
            broadcast use vstd::seq_lib::group_to_multiset_ensures;
            broadcast use vstd::multiset::group_multiset_axioms;

            assert(rest0.drop_last().push(gx) =~= rest0);
            assert(rest0.to_multiset() == rest@.to_multiset().insert(gx));
        }
        let mut k: usize = 0;
        while k < out.len() && out[k].1 >= x.1
            invariant
                k <= out@.len(),
                forall|m: int| 0 <= m < k ==> out@[m].1 >= gx.1,
            decreases out@.len() - k,
        {
            k += 1;
        }
        let ghost gk = k as int;
        out.insert(k, x);
        proof {
            broadcast use vstd::multiset::group_multiset_axioms;

            lemma_insert_to_multiset(out0, gk, gx);
            assert(out@.to_multiset().add(rest@.to_multiset()) =~= out0.to_multiset().add(
                rest0.to_multiset(),
            ));
            assert forall|i: int, j: int| 0 <= i <= j < out@.len() implies out@[i].1 >= out@[j].1 by {
                if i < gk && j < gk {
                    assert(out@[i] == out0[i] && out@[j] == out0[j]);
                } else if i < gk && j == gk {
                    assert(out@[i] == out0[i]);
                } else if i < gk && j > gk {
                    assert(out@[i] == out0[i] && out@[j] == out0[j - 1]);
                } else if i == gk && j > gk {
                    assert(out@[j] == out0[j - 1]);
                    assert(gk < out0.len());
                    assert(out0[gk].1 < gx.1);
                    assert(out0[gk].1 >= out0[j - 1].1);
                } else if i > gk && j > gk {
                    assert(out@[i] == out0[i - 1] && out@[j] == out0[j - 1]);
                }
            }
        }
    }
    proof {
        broadcast use vstd::multiset::group_multiset_axioms;

        assert(rest@.to_multiset() =~= Multiset::<(String, u64)>::empty());
        assert(out@.to_multiset().add(rest@.to_multiset()) =~= out@.to_multiset());
        assert(out@.to_multiset().len() == v@.to_multiset().len());
        broadcast use vstd::seq_lib::group_to_multiset_ensures;

        assert(out@.to_multiset().len() == out@.len());
    }
    out
}

/// Rearranging the recorded pairs rearranges their sizes: the multiset of
/// sizes is the same on both sides.
proof fn lemma_sizes_multiset(s1: Seq<(String, u64)>, s2: Seq<(String, u64)>)
    requires
        s1.to_multiset() == s2.to_multiset(),
    ensures
        sizes_of(s1).to_multiset() == sizes_of(s2).to_multiset(),
    decreases s1.len(),
{
    broadcast use vstd::seq_lib::group_to_multiset_ensures;
    broadcast use vstd::multiset::group_multiset_axioms;

    if s1.len() == 0 {
        assert(s1.to_multiset().len() == s1.len());
        assert(s2.to_multiset().len() == s2.len());
        assert(sizes_of(s1) =~= Seq::<u64>::empty());
        assert(sizes_of(s2) =~= Seq::<u64>::empty());
    } else {
        let l = s1.len() - 1;
        let e = s1.last();
        assert(s1[l] == e);
        assert(s1.contains(e));
        assert(s2.to_multiset().count(e) > 0);
        assert(s2.contains(e));
        let j = choose|j: int| 0 <= j < s2.len() && s2[j] == e;
        assert(s1.drop_last() =~= s1.remove(l));
        assert(s1.remove(l).to_multiset() == s1.to_multiset().remove(e));
        assert(s2.remove(j).to_multiset() == s2.to_multiset().remove(e));
        lemma_sizes_multiset(s1.drop_last(), s2.remove(j));
        assert(sizes_of(s1) =~= sizes_of(s1.drop_last()).push(e.1));
        assert(sizes_of(s1.drop_last()).push(e.1).to_multiset() == sizes_of(
            s1.drop_last(),
        ).to_multiset().insert(e.1));
        assert(sizes_of(s2.remove(j)) =~= sizes_of(s2).remove(j));
        assert(sizes_of(s2)[j] == e.1);
        assert(sizes_of(s2).remove(j).to_multiset() == sizes_of(s2).to_multiset().remove(e.1));
        assert(sizes_of(s2).contains(e.1));
        assert(sizes_of(s2).to_multiset().count(e.1) > 0);
        assert(sizes_of(s1).to_multiset() =~= sizes_of(s2).to_multiset());
    }
}

/// Two sequences sorted descending by size that hold the same multiset of
/// sizes show the same sizes in the same order.
proof fn lemma_sorted_sizes_unique(s1: Seq<(String, u64)>, s2: Seq<(String, u64)>)
    requires
        sizes_of(s1).to_multiset() == sizes_of(s2).to_multiset(),
        sorted_desc(s1),
        sorted_desc(s2),
    ensures
        sizes_of(s1) == sizes_of(s2),
{
    let geq = |a: u64, b: u64| b <= a;
    assert forall|x: u64| #[trigger] geq(x, x) by {}
    assert forall|x: u64, y: u64| #[trigger] geq(x, y) && #[trigger] geq(y, x) implies x == y by {}
    assert forall|x: u64, y: u64, z: u64|
        #[trigger] geq(x, y) && #[trigger] geq(y, z) implies geq(x, z) by {}
    assert forall|x: u64, y: u64| !(#[trigger] geq(x, y)) implies geq(y, x) by {}
    assert(vstd::relations::total_ordering(geq));
    assert forall|i: int, j: int| 0 <= i < j < sizes_of(s1).len() implies geq(
        sizes_of(s1)[i],
        sizes_of(s1)[j],
    ) by {
        assert(sizes_of(s1)[i] == s1[i].1 && sizes_of(s1)[j] == s1[j].1);
    }
    assert forall|i: int, j: int| 0 <= i < j < sizes_of(s2).len() implies geq(
        sizes_of(s2)[i],
        sizes_of(s2)[j],
    ) by {
        assert(sizes_of(s2)[i] == s2[i].1 && sizes_of(s2)[j] == s2[j].1);
    }
    vstd::seq_lib::lemma_sorted_unique(sizes_of(s1), sizes_of(s2), geq);
}

/// Determinism of the reduction: two descending arrangements of the same
/// recorded files, cut at the same length, show exactly the same sizes in
/// the same order — so two scans of an unchanged tree report the same
/// top-list sizes, whatever order the workers filled the index in.
pub proof fn lemma_top_sizes_deterministic(s1: Seq<(String, u64)>, s2: Seq<(String, u64)>, m: int)
    requires
        s1.to_multiset() == s2.to_multiset(),
        sorted_desc(s1),
        sorted_desc(s2),
        0 <= m <= s1.len(),
    ensures
        m <= s2.len(),
        sizes_of(s1.take(m)) == sizes_of(s2.take(m)),
{
    lemma_sizes_multiset(s1, s2);
    lemma_sorted_sizes_unique(s1, s2);
    assert(sizes_of(s1).len() == s1.len());
    assert(sizes_of(s2).len() == s2.len());
    assert(sizes_of(s1.take(m)) =~= sizes_of(s1).take(m));
    assert(sizes_of(s2.take(m)) =~= sizes_of(s2).take(m));
}

/// Two uniquely-keyed indexes that denote the same path-to-size mapping
/// record the same multiset of sizes.
proof fn lemma_sizes_from_map(e1: Seq<(String, u64)>, e2: Seq<(String, u64)>)
    requires
        unique_paths(e1),
        unique_paths(e2),
        pairs_to_map(e1) == pairs_to_map(e2),
    ensures
        sizes_of(e1).to_multiset() == sizes_of(e2).to_multiset(),
    decreases e1.len(),
{
    broadcast use vstd::seq_lib::group_to_multiset_ensures;
    broadcast use vstd::multiset::group_multiset_axioms;

    if e1.len() == 0 {
        if e2.len() > 0 {
            assert(pairs_to_map(e2).contains_key(e2.last().0@));
            assert(pairs_to_map(e1) =~= Map::<Seq<char>, u64>::empty());
        }
        assert(sizes_of(e1) =~= Seq::<u64>::empty());
        assert(sizes_of(e2) =~= Seq::<u64>::empty());
    } else {
        let l = e1.len() - 1;
        let p = e1.last();
        let k = p.0@;
        lemma_pairs_to_map_props(e1);
        lemma_pairs_to_map_props(e2);
        assert(e1[l] == p);
        assert(pairs_to_map(e1).contains_key(k) && pairs_to_map(e1)[k] == p.1);
        assert(pairs_to_map(e2).contains_key(k));
        let j = choose|j: int| 0 <= j < e2.len() && e2[j].0@ == k;
        assert(pairs_to_map(e2)[e2[j].0@] == e2[j].1);
        assert(e2[j].1 == p.1);
        let d1 = e1.drop_last();
        let r2 = e2.remove(j);
        assert(d1 =~= e1.remove(l));
        lemma_pairs_to_map_remove(e1, l);
        lemma_pairs_to_map_remove(e2, j);
        assert(pairs_to_map(d1) == pairs_to_map(r2));
        assert forall|a: int, b: int| 0 <= a < b < d1.len() implies d1[a].0@ != d1[b].0@ by {
            assert(d1[a] == e1[a] && d1[b] == e1[b]);
        }
        assert forall|a: int, b: int| 0 <= a < b < r2.len() implies r2[a].0@ != r2[b].0@ by {
            let sa = if a < j {
                a
            } else {
                a + 1
            };
            let sb = if b < j {
                b
            } else {
                b + 1
            };
            assert(r2[a] == e2[sa] && r2[b] == e2[sb]);
        }
        lemma_sizes_from_map(d1, r2);
        assert(sizes_of(e1) =~= sizes_of(d1).push(p.1));
        assert(sizes_of(d1).push(p.1).to_multiset() == sizes_of(d1).to_multiset().insert(p.1));
        assert(sizes_of(r2) =~= sizes_of(e2).remove(j));
        assert(sizes_of(e2)[j] == e2[j].1);
        assert(sizes_of(e2).remove(j).to_multiset() == sizes_of(e2).to_multiset().remove(p.1));
        assert(sizes_of(e2).contains(p.1)) by {
            assert(sizes_of(e2)[j] == p.1);
        }
        assert(sizes_of(e2).to_multiset().count(p.1) > 0);
        assert(sizes_of(e1).to_multiset() =~= sizes_of(e2).to_multiset());
    }
}

/// Idempotence of a scan: two runs over an unchanged tree record the same
/// path-to-size index, however their workers interleaved, and descending
/// arrangements of the two indexes, cut at the same requested length, show
/// exactly the same sizes.
pub proof fn lemma_same_index_same_top_sizes(
    e1: Seq<(String, u64)>,
    e2: Seq<(String, u64)>,
    s1: Seq<(String, u64)>,
    s2: Seq<(String, u64)>,
    m: int,
)
    requires
        unique_paths(e1),
        unique_paths(e2),
        pairs_to_map(e1) == pairs_to_map(e2),
        s1.to_multiset() == e1.to_multiset(),
        s2.to_multiset() == e2.to_multiset(),
        sorted_desc(s1),
        sorted_desc(s2),
        0 <= m <= s1.len(),
    ensures
        m <= s2.len(),
        sizes_of(s1.take(m)) == sizes_of(s2.take(m)),
{
    lemma_sizes_from_map(e1, e2);
    lemma_sizes_multiset(s1, e1);
    lemma_sizes_multiset(s2, e2);
    lemma_sorted_sizes_unique(s1, s2);
    assert(sizes_of(s1).len() == s1.len());
    assert(sizes_of(s2).len() == s2.len());
    assert(sizes_of(s1.take(m)) =~= sizes_of(s1).take(m));
    assert(sizes_of(s2.take(m)) =~= sizes_of(s2).take(m));
}

/// Reduce a size index to the final report: sort the recorded pairs
/// descending by size and keep the first `k` of them, alongside the grand
/// total and the number of indexed files. The top list is a prefix of a
/// descending arrangement of the whole index, so it holds the `k` largest.
pub fn build_report(total: u64, index: Vec<(String, u64)>, k: usize) -> (r: Report)
    ensures
        r.total == total,
        r.indexed == index@.len(),
        sorted_desc(r.top@),
        r.top@.len() == if k as int <= index@.len() {
            k as int
        } else {
            index@.len() as int
        },
        forall|i: int|
            0 <= i < r.top@.len() ==> index@.to_multiset().contains(#[trigger] r.top@[i]),
        all_large(index@) ==> all_large(r.top@),
        exists|s: Seq<(String, u64)>|
            s.to_multiset() == index@.to_multiset() && sorted_desc(s) && r.top@ == s.take(
                r.top@.len() as int,
            ),
{
    let n = index.len();
    let ghost iview = index@;
    let mut sorted = sort_desc(index);
    let ghost full = sorted@;
    let m = if k <= sorted.len() {
        k
    } else {
        sorted.len()
    };
    sorted.truncate(m);
    proof {
        broadcast use vstd::seq_lib::group_to_multiset_ensures;

        assert(sorted@ =~= full.take(m as int));
        assert forall|i: int| 0 <= i < sorted@.len() implies iview.to_multiset().contains(
            #[trigger] sorted@[i],
        ) by {
            assert(sorted@[i] == full[i]);
            assert(full.contains(full[i]));
            assert(full.to_multiset().count(full[i]) > 0);
        }
        if all_large(iview) {
            assert forall|i: int| 0 <= i < sorted@.len() implies sorted@[i].1
                > crate::MIN_FILE_SIZE by {
                assert(iview.to_multiset().contains(sorted@[i]));
                assert(iview.to_multiset().count(sorted@[i]) > 0);
                assert(iview.contains(sorted@[i]));
                let j = choose|j: int| 0 <= j < iview.len() && iview[j] == sorted@[i];
                assert(iview[j].1 > crate::MIN_FILE_SIZE);
            }
        }
    }
    Report { total, top: sorted, indexed: n }
}

} // verus!
