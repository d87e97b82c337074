//! Mann-Whitney U test: a rank-based nonparametric comparison of two
//! independent samples, with mid-rank tie correction and a normal
//! approximation for the p-value.
//!
//! Ranks are held doubled (`2 * rank`), so that mid-ranks of tied runs —
//! averages of two rank positions — stay integers.

use vstd::prelude::*;
use vstd::string::*;
use vstd::seq_lib::lemma_multiset_commutative;
use vstd::multiset::Multiset;
use crate::rat::{
    Rat, Ratio, int_rat, int_abs, rat_add, rat_sub, rat_signed_sq, rat_abs, rat_div, rat_min,
    rat_eqv, rat_le, rat_wf, rsub, rmul, rdiv, lemma_eqv_trans, lemma_abs_eqv,
};
use crate::stats::{views, seq_wf};
use crate::common::{RefDistribution, StatError, TailType, range_message};

verus! {

/// One observation of the combined sample, tagged with its group.
#[derive(Clone, Copy)]
pub struct RankEntry {
    pub value: Ratio,
    pub first_group: bool,
}

/// The mathematical values of a sequence of tagged observations.
pub open spec fn entry_views(s: Seq<RankEntry>) -> Seq<(Rat, bool)> {
    s.map_values(|e: RankEntry| (e.value@, e.first_group))
}

/// A sample tagged with one group flag.
pub open spec fn tagged(s: Seq<Rat>, flag: bool) -> Seq<(Rat, bool)> {
    Seq::new(s.len(), |i: int| (s[i], flag))
}

/// Every entry value is a well-formed executable rational.
pub open spec fn entries_wf(s: Seq<RankEntry>) -> bool {
    forall|i: int| 0 <= i < s.len() ==> (#[trigger] s[i]).value.wf()
}

/// Every tagged value is well formed.
pub open spec fn pairs_wf(s: Seq<(Rat, bool)>) -> bool {
    forall|i: int| 0 <= i < s.len() ==> rat_wf((#[trigger] s[i]).0)
}

/// The values are in non-decreasing order.
pub open spec fn sorted_pairs(s: Seq<(Rat, bool)>) -> bool {
    forall|i: int| 0 <= i && i + 1 < s.len() ==> rat_le((#[trigger] s[i]).0, s[i + 1].0)
}

/// The values of a sequence of tagged observations.
pub open spec fn pair_vals(s: Seq<(Rat, bool)>) -> Seq<Rat> {
    s.map_values(|p: (Rat, bool)| p.0)
}

/// First index of the maximal run of values equivalent to `s[i]` that ends
/// at `i` (adjacent equivalence, as applies to a sorted sequence).
pub open spec fn first_eq(s: Seq<Rat>, i: int) -> int
    recommends
        0 <= i < s.len(),
    decreases i,
{
    if i > 0 && rat_eqv(s[i - 1], s[i]) {
        first_eq(s, i - 1)
    } else {
        i
    }
}

/// Last index of the maximal run of values equivalent to `s[i]` that
/// starts at `i`.
pub open spec fn last_eq(s: Seq<Rat>, i: int) -> int
    recommends
        0 <= i < s.len(),
    decreases s.len() - i,
{
    if i + 1 < s.len() && rat_eqv(s[i + 1], s[i]) {
        last_eq(s, i + 1)
    } else {
        i
    }
}

/// The mid-rank rule, on doubled ranks: every element of a maximal tied
/// run receives the first and last 1-based positions of the run, added.
pub open spec fn midranks_ok(vals: Seq<Rat>, r2: Seq<u64>) -> bool {
    r2.len() == vals.len() && (forall|i: int|
        0 <= i < vals.len() ==> #[trigger] r2[i] == first_eq(vals, i) + last_eq(vals, i) + 2)
}

/// Sum of a sequence of doubled ranks.
pub open spec fn rank2_sum(s: Seq<u64>) -> int
    decreases s.len(),
{
    if s.len() == 0 {
        0
    } else {
        rank2_sum(s.drop_last()) + s.last()
    }
}

/// Sum of the doubled ranks of the entries carrying group flag `f`.
pub open spec fn group_rank2_sum(e: Seq<(Rat, bool)>, r2: Seq<u64>, f: bool) -> int
    decreases e.len(),
{
    if e.len() == 0 {
        0
    } else {
        group_rank2_sum(e.drop_last(), r2.drop_last(), f) + if e.last().1 == f {
            r2.last() as int
        } else {
            0
        }
    }
}

/// Number of entries carrying group flag `f`.
pub open spec fn count_flag(s: Seq<(Rat, bool)>, f: bool) -> int
    decreases s.len(),
{
    if s.len() == 0 {
        0
    } else {
        count_flag(s.drop_last(), f) + if s.last().1 == f {
            1int
        } else {
            0int
        }
    }
}

/// The full textbook construction of the pair of U statistics: a sorted
/// tagged permutation of the two samples, a mid-rank assignment over it,
/// and `U_g = R_g - n_g (n_g + 1) / 2` from each group's rank sum.
pub open spec fn mw_witness(
    s1: Seq<Rat>,
    s2: Seq<Rat>,
    e: Seq<(Rat, bool)>,
    r2: Seq<u64>,
    u1: Rat,
    u2: Rat,
) -> bool {
    pairs_wf(e) && e.to_multiset() == (tagged(s1, true) + tagged(s2, false)).to_multiset()
        && sorted_pairs(e) && e.len() == s1.len() + s2.len() && midranks_ok(pair_vals(e), r2)
        && count_flag(e, true) == s1.len() && count_flag(e, false) == s2.len() && rat_eqv(
        u1,
        Rat { n: group_rank2_sum(e, r2, true) - s1.len() * (s1.len() + 1), d: 2 },
    ) && rat_eqv(
        u2,
        Rat { n: group_rank2_sum(e, r2, false) - s2.len() * (s2.len() + 1), d: 2 },
    )
}

/// `count_flag` distributes over concatenation.
proof fn lemma_count_flag_concat(a: Seq<(Rat, bool)>, b: Seq<(Rat, bool)>, f: bool)
    ensures
        count_flag(a + b, f) == count_flag(a, f) + count_flag(b, f),
    decreases b.len(),
{
    if b.len() == 0 {
        assert(a + b =~= a);
    } else {
        lemma_count_flag_concat(a, b.drop_last(), f);
        assert((a + b).drop_last() =~= a + b.drop_last());
        assert((a + b).last() == b.last());
    }
}

/// `count_flag` of a singleton.
proof fn lemma_count_flag_single(p: (Rat, bool), f: bool)
    ensures
        count_flag(seq![p], f) == if p.1 == f {
            1int
        } else {
            0int
        },
{
    let s0 = seq![p];
    assert(s0.len() == 1);
    assert(s0[0int] == p);
    assert(s0.last() == p);
    assert(s0.drop_last() =~= Seq::<(Rat, bool)>::empty());
    assert(count_flag(s0.drop_last(), f) == 0) by {
        assert(s0.drop_last().len() == 0);
    }
    assert(count_flag(s0, f) == count_flag(s0.drop_last(), f) + if s0.last().1 == f {
        1int
    } else {
        0int
    });
}

/// Inserting an element into a sorted-and-tagged vector, keeping it
/// sorted.
fn insert_sorted(out: &mut Vec<RankEntry>, e: RankEntry)
    requires
        sorted_pairs(entry_views(old(out)@)),
        entries_wf(old(out)@),
        e.value.wf(),
        old(out)@.len() < usize::MAX,
    ensures
        final(out)@.len() == old(out)@.len() + 1,
        sorted_pairs(entry_views(final(out)@)),
        entries_wf(final(out)@),
        entry_views(final(out)@).to_multiset() == entry_views(old(out)@).to_multiset().insert(
            (e.value@, e.first_group),
        ),
        forall|f: bool|
            #[trigger] count_flag(entry_views(final(out)@), f) == count_flag(
                entry_views(old(out)@),
                f,
            ) + if e.first_group == f {
                1int
            } else {
                0int
            },
{
    let ghost before = entry_views(out@);
    let mut pos: usize = 0;
    while pos < out.len() && out[pos].value.le(e.value)
        invariant
            pos <= out@.len(),
            out@ == old(out)@,
            sorted_pairs(entry_views(out@)),
            entries_wf(out@),
            e.value.wf(),
            forall|j: int| 0 <= j < pos ==> rat_le((#[trigger] entry_views(out@)[j]).0, e.value@),
        decreases out@.len() - pos,
    {
        pos = pos + 1;
    }
    proof {
        if pos < out@.len() {
            assert(!rat_le(entry_views(out@)[pos as int].0, e.value@));
        }
    }
    out.insert(pos, e);
    proof {
        let p = (e.value@, e.first_group);
        let after = entry_views(out@);
        assert(after =~= before.insert(pos as int, p));
        assert(after =~= before.take(pos as int) + seq![p] + before.skip(pos as int));
        assert(before =~= before.take(pos as int) + before.skip(pos as int));
        lemma_multiset_commutative(before.take(pos as int) + seq![p], before.skip(pos as int));
        lemma_multiset_commutative(before.take(pos as int), seq![p]);
        lemma_multiset_commutative(before.take(pos as int), before.skip(pos as int));
        assert(seq![p].to_multiset() =~= Multiset::<(Rat, bool)>::empty().insert(p)) by {
            assert(seq![p] =~= Seq::<(Rat, bool)>::empty().push(p));
            broadcast use vstd::seq_lib::group_to_multiset_ensures;

            assert(Seq::<(Rat, bool)>::empty().to_multiset() =~= Multiset::<(Rat, bool)>::empty())
                by {
                assert(Seq::<(Rat, bool)>::empty().to_multiset().len() == 0);
            }
        }
        assert(after.to_multiset() =~= before.to_multiset().insert(p));
        // Sortedness of the new sequence.
        assert forall|i: int| 0 <= i && i + 1 < after.len() implies rat_le(
            (#[trigger] after[i]).0,
            after[i + 1].0,
        ) by {
            if i + 1 < pos {
                assert(after[i] == before[i] && after[i + 1] == before[i + 1]);
            } else if i + 1 == pos {
                assert(after[i] == before[i] && after[i + 1] == p);
            } else if i == pos {
                assert(after[i] == p && after[i + 1] == before[i]);
            } else {
                assert(after[i] == before[i - 1] && after[i + 1] == before[i]);
            }
        }
        // Counts.
        assert forall|f: bool|
            #[trigger] count_flag(after, f) == count_flag(before, f) + (if e.first_group == f {
                1int
            } else {
                0int
            }) by {
            lemma_count_flag_concat(before.take(pos as int) + seq![p], before.skip(pos as int), f);
            lemma_count_flag_concat(before.take(pos as int), seq![p], f);
            lemma_count_flag_concat(before.take(pos as int), before.skip(pos as int), f);
            lemma_count_flag_single(p, f);
            assert(count_flag(after, f) == count_flag(
                before.take(pos as int) + seq![p] + before.skip(pos as int),
                f,
            ));
            assert(count_flag(before, f) == count_flag(
                before.take(pos as int) + before.skip(pos as int),
                f,
            ));
        }
    }
}

/// Merges the two samples, tagging each observation with its group, and
/// sorts the combined sequence by value.
pub fn combine_and_sort(data1: &Vec<Ratio>, data2: &Vec<Ratio>) -> (r: Vec<RankEntry>)
    requires
        seq_wf(data1@),
        seq_wf(data2@),
        data1@.len() + data2@.len() < usize::MAX,
    ensures
        r@.len() == data1@.len() + data2@.len(),
        sorted_pairs(entry_views(r@)),
        entries_wf(r@),
        entry_views(r@).to_multiset() == (tagged(views(data1@), true) + tagged(
            views(data2@),
            false,
        )).to_multiset(),
        count_flag(entry_views(r@), true) == data1@.len(),
        count_flag(entry_views(r@), false) == data2@.len(),
{
    let ghost t1 = tagged(views(data1@), true);
    let ghost t2 = tagged(views(data2@), false);
    let mut out: Vec<RankEntry> = Vec::new();
    let mut i: usize = 0;
    proof {
        assert(entry_views(out@) =~= Seq::<(Rat, bool)>::empty());
        assert(t1.take(0int) =~= Seq::<(Rat, bool)>::empty());
        assert(Seq::<(Rat, bool)>::empty().to_multiset() =~= Multiset::<(Rat, bool)>::empty()) by {
            broadcast use vstd::seq_lib::group_to_multiset_ensures;

            assert(Seq::<(Rat, bool)>::empty().to_multiset().len() == 0);
        }
    }
    while i < data1.len()
        invariant
            i <= data1@.len(),
            seq_wf(data1@),
            t1 == tagged(views(data1@), true),
            out@.len() == i,
            data1@.len() + data2@.len() < usize::MAX,
            sorted_pairs(entry_views(out@)),
            entries_wf(out@),
            entry_views(out@).to_multiset() == t1.take(i as int).to_multiset(),
        decreases data1@.len() - i,
    {
        let x = data1[i];
        insert_sorted(&mut out, RankEntry { value: x, first_group: true });
        proof {
            broadcast use vstd::seq_lib::group_to_multiset_ensures;

            assert(t1.take(i + 1) =~= t1.take(i as int).push((x@, true)));
        }
        i = i + 1;
    }
    proof {
        assert(t1.take(data1@.len() as int) =~= t1);
        assert(t2.take(0int) =~= Seq::<(Rat, bool)>::empty());
        assert(Seq::<(Rat, bool)>::empty().to_multiset() =~= Multiset::<(Rat, bool)>::empty()) by {
            broadcast use vstd::seq_lib::group_to_multiset_ensures;

            assert(Seq::<(Rat, bool)>::empty().to_multiset().len() == 0);
        }
        assert(t1.to_multiset().add(Multiset::<(Rat, bool)>::empty()) =~= t1.to_multiset());
    }
    let mut j: usize = 0;
    while j < data2.len()
        invariant
            j <= data2@.len(),
            seq_wf(data2@),
            t1 == tagged(views(data1@), true),
            t2 == tagged(views(data2@), false),
            out@.len() == data1@.len() + j,
            data1@.len() + data2@.len() < usize::MAX,
            sorted_pairs(entry_views(out@)),
            entries_wf(out@),
            entry_views(out@).to_multiset() == t1.to_multiset().add(
                t2.take(j as int).to_multiset(),
            ),
        decreases data2@.len() - j,
    {
        let x = data2[j];
        insert_sorted(&mut out, RankEntry { value: x, first_group: false });
        proof {
            broadcast use vstd::seq_lib::group_to_multiset_ensures;

            assert(t2.take(j + 1) =~= t2.take(j as int).push((x@, false)));
            assert(t2.take(j + 1).to_multiset() =~= t2.take(j as int).to_multiset().insert(
                (x@, false),
            ));
            assert(t1.to_multiset().add(t2.take(j + 1).to_multiset()) =~= t1.to_multiset().add(
                t2.take(j as int).to_multiset(),
            ).insert((x@, false)));
        }
        j = j + 1;
    }
    proof {
        assert(t2.take(data2@.len() as int) =~= t2);
        lemma_multiset_commutative(t1, t2);
        // Counts from the multiset equality, via the count invariantly
        // maintained by insertion.
        let final_views = entry_views(out@);
        lemma_count_from_start(final_views, t1, t2);
    }
    out
}

/// Derives the two group counts of the sorted merge from its construction.
proof fn lemma_count_from_start(e: Seq<(Rat, bool)>, t1: Seq<(Rat, bool)>, t2: Seq<(Rat, bool)>)
    requires
        e.to_multiset() == (t1 + t2).to_multiset(),
        forall|i: int| 0 <= i < t1.len() ==> (#[trigger] t1[i]).1 == true,
        forall|i: int| 0 <= i < t2.len() ==> (#[trigger] t2[i]).1 == false,
    ensures
        count_flag(e, true) == t1.len(),
        count_flag(e, false) == t2.len(),
{
    lemma_count_flag_concat(t1, t2, true);
    lemma_count_flag_concat(t1, t2, false);
    lemma_count_flag_all(t1, true);
    lemma_count_flag_all(t2, false);
    lemma_count_flag_multiset(e, t1 + t2, true);
    lemma_count_flag_multiset(e, t1 + t2, false);
}

/// A sequence whose flags all equal `flag` counts its length for `flag`
/// and zero for the other flag.
proof fn lemma_count_flag_all(s: Seq<(Rat, bool)>, flag: bool)
    requires
        forall|i: int| 0 <= i < s.len() ==> (#[trigger] s[i]).1 == flag,
    ensures
        count_flag(s, flag) == s.len(),
        count_flag(s, !flag) == 0,
    decreases s.len(),
{
    if s.len() > 0 {
        assert(forall|i: int|
            0 <= i < s.drop_last().len() ==> #[trigger] s.drop_last()[i] == s[i]);
        lemma_count_flag_all(s.drop_last(), flag);
    }
}

/// Sequences with equal multisets have equal flag counts.
proof fn lemma_count_flag_multiset(a: Seq<(Rat, bool)>, b: Seq<(Rat, bool)>, f: bool)
    requires
        a.to_multiset() == b.to_multiset(),
    ensures
        count_flag(a, f) == count_flag(b, f),
    decreases a.len(),
{
    broadcast use vstd::seq_lib::group_to_multiset_ensures;

    if a.len() == 0 {
        assert(b.to_multiset().len() == 0);
        assert(b.len() == 0);
    } else {
        let x = a.last();
        assert(a.to_multiset().count(x) > 0) by {
            assert(a.contains(x));
        }
        assert(b.to_multiset().count(x) > 0);
        assert(b.contains(x));
        let k = choose|k: int| 0 <= k < b.len() && b[k] == x;
        let b2 = b.remove(k);
        assert(b2.to_multiset() =~= b.to_multiset().remove(x));
        let a2 = a.drop_last();
        assert(a2 =~= a.remove(a.len() - 1));
        assert(a2.to_multiset() =~= a.to_multiset().remove(x));
        lemma_count_flag_multiset(a2, b2, f);
        lemma_count_flag_remove(b, k, f);
    }
}

/// Removing an element adjusts the flag count by its own flag.
proof fn lemma_count_flag_remove(b: Seq<(Rat, bool)>, k: int, f: bool)
    requires
        0 <= k < b.len(),
    ensures
        count_flag(b, f) == count_flag(b.remove(k), f) + if b[k].1 == f {
            1int
        } else {
            0int
        },
{
    assert(b =~= b.take(k) + seq![b[k]] + b.skip(k + 1));
    assert(b.remove(k) =~= b.take(k) + b.skip(k + 1));
    lemma_count_flag_concat(b.take(k) + seq![b[k]], b.skip(k + 1), f);
    lemma_count_flag_concat(b.take(k), seq![b[k]], f);
    lemma_count_flag_concat(b.take(k), b.skip(k + 1), f);
    lemma_count_flag_single(b[k], f);
    assert(count_flag(b, f) == count_flag(b.take(k) + seq![b[k]] + b.skip(k + 1), f));
    assert(count_flag(b.remove(k), f) == count_flag(b.take(k) + b.skip(k + 1), f));
}

/// Within a run of pairwise-adjacent-equivalent values whose start is a
/// run boundary, `first_eq` is the start of the run.
proof fn lemma_first_eq_run(s: Seq<Rat>, a: int, i: int)
    requires
        0 <= a <= i < s.len(),
        forall|j: int| a < j <= i ==> rat_eqv(s[j - 1], #[trigger] s[j]),
        a == 0 || !rat_eqv(s[a - 1], s[a]),
    ensures
        first_eq(s, i) == a,
    decreases i - a,
{
    if i == a {
    } else {
        assert(rat_eqv(s[i - 1], s[i]));
        lemma_first_eq_run(s, a, i - 1);
    }
}

/// Within a run of pairwise-adjacent-equivalent values whose end is a run
/// boundary, `last_eq` is the end of the run.
proof fn lemma_last_eq_run(s: Seq<Rat>, i: int, b: int)
    requires
        0 <= i <= b < s.len(),
        forall|j: int| i < j <= b ==> rat_eqv(s[j - 1], #[trigger] s[j]),
        b + 1 == s.len() || !rat_eqv(s[b + 1], s[b]),
    ensures
        last_eq(s, i) == b,
    decreases b - i,
{
    if i == b {
    } else {
        assert(rat_eqv(s[i], s[i + 1])) by {
            assert(rat_eqv(s[i + 1 - 1], s[i + 1]));
        }
        lemma_last_eq_run(s, i + 1, b);
    }
}

/// Assigns the doubled mid-ranks of a sorted sequence: each maximal tied
/// run of values receives the sum of its first and last 1-based
/// positions, so that every member of the run carries the average of the
/// positions the run spans.  The doubled ranks total `n * (n + 1)`
/// exactly.
pub fn midranks_doubled(entries: &Vec<RankEntry>) -> (r: Vec<u64>)
    requires
        sorted_pairs(entry_views(entries@)),
        entries_wf(entries@),
        entries@.len() <= 100000,
    ensures
        midranks_ok(pair_vals(entry_views(entries@)), r@),
        rank2_sum(r@) == entries@.len() * (entries@.len() + 1),
        forall|i: int| 0 <= i < r@.len() ==> #[trigger] r@[i] <= 2 * entries@.len(),
{
    let ghost vals = pair_vals(entry_views(entries@));
    let n = entries.len();
    let mut ranks: Vec<u64> = Vec::new();
    let mut start: usize = 0;
    proof {
        assert(rank2_sum(ranks@) == 0);
    }
    while start < n
        invariant
            start <= n,
            n == entries@.len(),
            n <= 100000,
            vals == pair_vals(entry_views(entries@)),
            sorted_pairs(entry_views(entries@)),
            entries_wf(entries@),
            ranks@.len() == start,
            forall|i: int|
                0 <= i < start ==> #[trigger] ranks@[i] == first_eq(vals, i) + last_eq(vals, i)
                    + 2,
            forall|i: int| 0 <= i < start ==> #[trigger] ranks@[i] <= 2 * n,
            rank2_sum(ranks@) == start * (start + 1),
            start == 0 || start == n || !rat_eqv(vals[start - 1], vals[start as int]),
        decreases n - start,
    {
        let mut end: usize = start;
        while end + 1 < n && entries[end + 1].value.eqv(entries[start].value)
            invariant
                start <= end < n,
                n == entries@.len(),
                vals == pair_vals(entry_views(entries@)),
                sorted_pairs(entry_views(entries@)),
                entries_wf(entries@),
                forall|j: int| start <= j <= end ==> rat_eqv(#[trigger] vals[j], vals[start as int]),
            decreases n - end,
        {
            proof {
                assert(vals[end + 1] == entries@[end + 1].value@);
                assert(vals[start as int] == entries@[start as int].value@);
            }
            end = end + 1;
            proof {
                assert forall|j: int| start <= j <= end implies rat_eqv(
                    #[trigger] vals[j],
                    vals[start as int],
                ) by {
                    if j < end {
                    } else {
                        assert(rat_eqv(vals[end as int], vals[start as int]));
                    }
                }
            }
        }
        // The run is vals[start ..= end]: adjacent values inside it are
        // equivalent, and both edges are boundaries.
        proof {
            assert forall|j: int| start < j <= end implies rat_eqv(
                vals[j - 1],
                #[trigger] vals[j],
            ) by {
                assert(rat_eqv(vals[j - 1], vals[start as int]));
                assert(rat_eqv(vals[j], vals[start as int]));
                crate::rat::lemma_eqv_trans(vals[j - 1], vals[start as int], vals[j]);
            }
            if end + 1 < n {
                assert(vals[end + 1] == entries@[end + 1].value@);
                assert(!rat_eqv(vals[end + 1], vals[start as int]));
                if rat_eqv(vals[end + 1], vals[end as int]) {
                    crate::rat::lemma_eqv_trans(
                        vals[end + 1],
                        vals[end as int],
                        vals[start as int],
                    );
                }
            }
            assert forall|i: int| start <= i <= end implies first_eq(vals, i) == start
                && last_eq(vals, i) == end by {
                assert forall|j: int| start < j <= i implies rat_eqv(
                    vals[j - 1],
                    #[trigger] vals[j],
                ) by {}
                lemma_first_eq_run(vals, start as int, i);
                assert forall|j: int| i < j <= end implies rat_eqv(
                    vals[j - 1],
                    #[trigger] vals[j],
                ) by {}
                lemma_last_eq_run(vals, i, end as int);
            }
        }
        let rank2 = (start + end + 2) as u64;
        let mut j2: usize = start;
        let ghost sum_before = rank2_sum(ranks@);
        while j2 <= end
            invariant
                start <= j2 <= end + 1,
                end < n,
                n == entries@.len(),
                n <= 100000,
                vals == pair_vals(entry_views(entries@)),
                rank2 == start + end + 2,
                ranks@.len() == j2,
                forall|i: int|
                    0 <= i < start ==> #[trigger] ranks@[i] == first_eq(vals, i) + last_eq(
                        vals,
                        i,
                    ) + 2,
                forall|i: int| start <= i < j2 ==> #[trigger] ranks@[i] == rank2,
                forall|i: int| 0 <= i < j2 ==> #[trigger] ranks@[i] <= 2 * n,
                rank2_sum(ranks@) == sum_before + (j2 - start) * (start + end + 2),
                sum_before == start * (start + 1),
            decreases end + 1 - j2,
        {
            let ghost prev = ranks@;
            ranks.push(rank2);
            proof {
                assert(ranks@.drop_last() =~= prev);
                assert((j2 + 1 - start) * (start + end + 2) == (j2 - start) * (start + end + 2) + (
                start + end + 2)) by (nonlinear_arith);
            }
            j2 = j2 + 1;
        }
        proof {
            assert(rank2_sum(ranks@) == (end + 1) * (end + 2)) by (nonlinear_arith)
                requires
                    rank2_sum(ranks@) == start * (start + 1) + ((end + 1) - start) * (start + end
                        + 2),
                    0 <= start <= end,
            ;
            assert forall|i: int| 0 <= i < end + 1 implies #[trigger] ranks@[i] == first_eq(
                vals,
                i,
            ) + last_eq(vals, i) + 2 by {
                if start <= i {
                    assert(ranks@[i] == rank2);
                }
            }
        }
        start = end + 1;
    }
    proof {
        assert(midranks_ok(vals, ranks@));
    }
    ranks
}

/// The two group rank sums partition the total, and each is bounded by
/// it.
proof fn lemma_group_sum_partition(e: Seq<(Rat, bool)>, r2: Seq<u64>)
    requires
        e.len() == r2.len(),
    ensures
        group_rank2_sum(e, r2, true) + group_rank2_sum(e, r2, false) == rank2_sum(r2),
        0 <= group_rank2_sum(e, r2, true) <= rank2_sum(r2),
        0 <= group_rank2_sum(e, r2, false) <= rank2_sum(r2),
    decreases e.len(),
{
    if e.len() > 0 {
        lemma_group_sum_partition(e.drop_last(), r2.drop_last());
    }
}

/// A prepared Mann-Whitney U test: the exact pair of U statistics, the
/// reported statistic `min(U1, U2)`, and the standardized statistic of the
/// normal approximation, recorded as its signed square.
pub struct UTest {
    /// `min(U1, U2)`, the reported statistic.
    pub u_statistic: Ratio,
    pub u1: Ratio,
    pub u2: Ratio,
    /// The normal-approximation statistic `(U - mu) / sigma`, recorded as
    /// its signed square; the reference distribution is the standard
    /// normal.
    pub z: Ratio,
    pub tail: TailType,
    pub dist: RefDistribution,
    pub null_hypothesis: String,
    pub alt_hypothesis: String,
}

impl UTest {
    pub open spec fn wf(self) -> bool {
        self.u_statistic.wf() && self.u1.wf() && self.u2.wf() && self.z.wf() && self.dist.wf()
    }
}

/// Mann-Whitney U test of two independent samples.  All observations are
/// pooled and ranked with mid-rank tie correction; `U_g = R_g - n_g (n_g +
/// 1) / 2` for each group's rank sum `R_g`; the reported statistic is
/// `min(U1, U2)`, and the p-value uses the normal approximation with mean
/// `n1 n2 / 2` and variance `n1 n2 (n1 + n2 + 1) / 12`.  Fails with
/// `EmptyData` when either sample is empty; on non-empty samples of at
/// most five thousand pooled observations it always succeeds, and beyond
/// that it can fail only when a value leaves the exact-arithmetic range.
pub fn u_test(data1: &Vec<Ratio>, data2: &Vec<Ratio>, tail: TailType) -> (r: Result<
    UTest,
    StatError,
>)
    requires
        seq_wf(data1@),
        seq_wf(data2@),
        data1@.len() + data2@.len() <= 100000,
    ensures
        data1@.len() == 0 || data2@.len() == 0 ==> (r matches Err(e) && e is EmptyData),
        r matches Err(e) ==> ((e is EmptyData <==> (data1@.len() == 0 || data2@.len() == 0)) && !(
        e is InsufficientData)),
        r matches Err(e) ==> (e matches StatError::ComputeError(m) ==> m@ == range_message()),
        data1@.len() >= 1 && data2@.len() >= 1 && data1@.len() + data2@.len() <= 5000
            ==> r is Ok,
        r matches Ok(u) ==> {
            let n1 = data1@.len() as int;
            let n2 = data2@.len() as int;
            data1@.len() >= 1 && data2@.len() >= 1 && u.wf() && (exists|e: Seq<(Rat, bool)>, r2: Seq<u64>|
                #[trigger] mw_witness(views(data1@), views(data2@), e, r2, u.u1@, u.u2@))
                && rat_eqv(rat_add(u.u1@, u.u2@), int_rat(n1 * n2)) && u.u_statistic@ == rat_min(
                u.u1@,
                u.u2@,
            ) && rat_eqv(
                u.z@,
                rat_div(
                    rat_signed_sq(rat_sub(u.u_statistic@, Rat { n: n1 * n2, d: 2 })),
                    Rat { n: n1 * n2 * (n1 + n2 + 1), d: 12 },
                ),
            ) && u.tail == tail && u.dist is StandardNormal && u.null_hypothesis@
                == "H0: The distributions of both groups are equal."@ && u.alt_hypothesis@
                == "Ha: The distributions of both groups are not equal."@
        },
{
    let ghost s1 = views(data1@);
    let ghost s2 = views(data2@);
    if data1.len() == 0 || data2.len() == 0 {
        return Err(StatError::EmptyData);
    }
    let n1 = data1.len();
    let n2 = data2.len();
    let n = n1 + n2;
    let sorted = combine_and_sort(data1, data2);
    let ranks = midranks_doubled(&sorted);
    let ghost ev = entry_views(sorted@);
    let ghost rv = ranks@;
    // Rank sum of the first group, in doubled ranks.
    let mut r1: u64 = 0;
    let mut l: usize = 0;
    proof {
        assert(ev.take(0int) =~= Seq::<(Rat, bool)>::empty());
        assert(rv.take(0int) =~= Seq::<u64>::empty());
    }
    while l < sorted.len()
        invariant
            l <= sorted@.len(),
            sorted@.len() == n,
            n == n1 + n2,
            n <= 100000,
            ranks@.len() == sorted@.len(),
            ev == entry_views(sorted@),
            rv == ranks@,
            forall|i: int| 0 <= i < rv.len() ==> #[trigger] rv[i] <= 2 * n,
            r1 as int == group_rank2_sum(ev.take(l as int), rv.take(l as int), true),
            r1 <= l * (2 * n),
        decreases sorted@.len() - l,
    {
        proof {
            assert(ev.take(l + 1).drop_last() =~= ev.take(l as int));
            assert(rv.take(l + 1).drop_last() =~= rv.take(l as int));
            assert(ev.take(l + 1).last() == ev[l as int]);
            assert(rv.take(l + 1).last() == rv[l as int]);
            assert((l + 1) * (2 * n) == l * (2 * n) + 2 * n) by (nonlinear_arith);
            assert(ev[l as int].1 == sorted@[l as int].first_group);
        }
        proof {
            assert(l * (2 * n) <= 100000 * 200000) by (nonlinear_arith)
                requires
                    l <= 100000,
                    n <= 100000,
            ;
        }
        if sorted[l].first_group {
            r1 = r1 + ranks[l];
        }
        l = l + 1;
    }
    proof {
        assert(ev.take(ev.len() as int) =~= ev);
        assert(rv.take(rv.len() as int) =~= rv);
        lemma_group_sum_partition(ev, rv);
    }
    let ghost g1 = group_rank2_sum(ev, rv, true);
    let ghost g2 = group_rank2_sum(ev, rv, false);
    proof {
        assert((n as int) * ((n + 1) as int) <= 100000 * 100001) by (nonlinear_arith)
            requires
                n <= 100000,
        ;
        assert(0 <= (n1 as int) * ((n1 + 1) as int) <= 100000 * 100001) by (nonlinear_arith)
            requires
                1 <= n1 <= 100000,
        ;
        assert(0 <= (n2 as int) * ((n2 + 1) as int) <= 100000 * 100001) by (nonlinear_arith)
            requires
                1 <= n2 <= 100000,
        ;
        assert(rank2_sum(rv) == n * (n + 1));
        assert(r1 <= 100000 * 200000) by (nonlinear_arith)
            requires
                r1 <= (n as int) * (2 * (n as int)) || r1 as int == group_rank2_sum(ev, rv, true),
                group_rank2_sum(ev, rv, true) <= rank2_sum(rv),
                rank2_sum(rv) == (n as int) * ((n as int) + 1),
                n <= 100000,
                0 <= r1 as int,
        ;
    }
    // 2 U_g = R_g(doubled) - n_g (n_g + 1).
    let num1: i128 = r1 as i128 - (n1 as i128) * ((n1 + 1) as i128);
    let total2: i128 = (n as i128) * ((n + 1) as i128);
    let num2: i128 = (total2 - r1 as i128) - (n2 as i128) * ((n2 + 1) as i128);
    proof {
        assert(g2 == total2 - r1 as int);
    }
    let u1 = match Ratio::new(num1 as i64, 2) {
        Some(v) => v,
        None => {
            return Err(crate::common::overflow_error());
        },
    };
    let u2 = match Ratio::new(num2 as i64, 2) {
        Some(v) => v,
        None => {
            return Err(crate::common::overflow_error());
        },
    };
    let ghost u1spec = Rat { n: g1 - s1.len() * (s1.len() + 1), d: 2 };
    let ghost u2spec = Rat { n: g2 - s2.len() * (s2.len() + 1), d: 2 };
    proof {
        assert(num1 as int == u1spec.n);
        assert(num2 as int == u2spec.n);
        assert(rat_eqv(u1@, u1spec));
        assert(rat_eqv(u2@, u2spec));
        // The pair of U statistics always sums to n1 * n2.
        assert(u1spec.n + u2spec.n == 2 * ((n1 as int) * (n2 as int))) by (nonlinear_arith)
            requires
                u1spec.n == g1 - (n1 as int) * ((n1 as int) + 1),
                u2spec.n == g2 - (n2 as int) * ((n2 as int) + 1),
                g1 + g2 == (n as int) * ((n as int) + 1),
                n == n1 + n2,
        ;
        crate::rat::lemma_add_eqv(u1@, u2@, u1spec, u2spec);
        assert(rat_eqv(rat_add(u1spec, u2spec), int_rat((n1 as int) * (n2 as int))))
            by (nonlinear_arith)
            requires
                u1spec.d == 2,
                u2spec.d == 2,
                u1spec.n + u2spec.n == 2 * ((n1 as int) * (n2 as int)),
                rat_add(u1spec, u2spec) == (Rat {
                    n: u1spec.n * 2 + u2spec.n * 2,
                    d: 4,
                }),
        ;
        lemma_eqv_trans(
            rat_add(u1@, u2@),
            rat_add(u1spec, u2spec),
            int_rat((n1 as int) * (n2 as int)),
        );
        // The witness for the full construction.
        assert(mw_witness(s1, s2, ev, rv, u1@, u2@));
    }
    let u_statistic = u1.min(u2);
    let z = match normal_approx_z(u_statistic, n1, n2) {
        Ok(v) => v,
        Err(e) => {
            proof {
                if n1 >= 1 && n2 >= 1 && n <= 5000 {
                    assert((n as int) * ((n as int) + 1) <= 25005000) by (nonlinear_arith)
                        requires
                            n <= 5000,
                    ;
                    assert(0 <= (n1 as int) * ((n1 as int) + 1) <= 25005000)
                        by (nonlinear_arith)
                        requires
                            1 <= n1 <= 5000,
                    ;
                    assert(0 <= (n2 as int) * ((n2 as int) + 1) <= 25005000)
                        by (nonlinear_arith)
                        requires
                            1 <= n2 <= 5000,
                    ;
                    assert(int_abs(u_statistic@.n) <= 50010000 && u_statistic@.d <= 2);
                    assert(false);
                }
            }
            return Err(e);
        },
    };
    proof {
        assert(exists|e: Seq<(Rat, bool)>, r2: Seq<u64>|
            #[trigger] mw_witness(s1, s2, e, r2, u1@, u2@));
    }
    Ok(
        UTest {
            u_statistic,
            u1,
            u2,
            z,
            tail,
            dist: RefDistribution::StandardNormal,
            null_hypothesis: String::from_str("H0: The distributions of both groups are equal."),
            alt_hypothesis: String::from_str(
                "Ha: The distributions of both groups are not equal.",
            ),
        },
    )
}

/// The standardized normal-approximation statistic `(u - mu) / sigma` of a
/// U statistic, recorded as its signed square: `mu = n1 n2 / 2` and
/// `sigma^2 = n1 n2 (n1 + n2 + 1) / 12`.  Fails only when a value exceeds
/// the exact-arithmetic range, which cannot happen for a bounded statistic
/// of a pooled sample of at most five thousand observations.
fn normal_approx_z(u_statistic: Ratio, n1: usize, n2: usize) -> (r: Result<Ratio, StatError>)
    requires
        u_statistic.wf(),
        1 <= n1,
        1 <= n2,
        n1 + n2 <= 100000,
    ensures
        r matches Err(e) ==> (e matches StatError::ComputeError(m) && m@ == range_message()),
        r matches Ok(z) ==> z.wf() && rat_eqv(
            z@,
            rat_div(
                rat_signed_sq(rat_sub(u_statistic@, Rat { n: (n1 as int) * (n2 as int), d: 2 })),
                Rat { n: (n1 as int) * (n2 as int) * ((n1 as int) + (n2 as int) + 1), d: 12 },
            ),
        ),
        n1 + n2 <= 5000 && int_abs(u_statistic@.n) <= 50010000 && u_statistic@.d <= 2
            ==> r is Ok,
{
    let n = n1 + n2;
    let ghost ok_case = n1 + n2 <= 5000 && int_abs(u_statistic@.n) <= 50010000 && u_statistic@.d
        <= 2;
    proof {
        assert((n1 as int) * (n2 as int) <= 100000 * 100000) by (nonlinear_arith)
            requires
                n1 <= 100000,
                n2 <= 100000,
        ;
        assert(1 <= (n1 as int) * (n2 as int)) by (nonlinear_arith)
            requires
                1 <= n1,
                1 <= n2,
        ;
        assert((n1 * n2) as int * ((n + 1) as int) <= 10000000000 * 100001) by (nonlinear_arith)
            requires
                (n1 * n2) as int <= 10000000000,
                n <= 100000,
        ;
        assert(1 <= (n1 * n2) as int * ((n + 1) as int)) by (nonlinear_arith)
            requires
                1 <= (n1 * n2) as int,
                1 <= (n + 1) as int,
        ;
    }
    let prod: u64 = (n1 as u64) * (n2 as u64);
    let mu = match Ratio::new(prod as i64, 2) {
        Some(v) => v,
        None => {
            return Err(crate::common::overflow_error());
        },
    };
    let var_num: u64 = prod * ((n as u64) + 1);
    let sigma_sq = match Ratio::new(var_num as i64, 12) {
        Some(v) => v,
        None => {
            return Err(crate::common::overflow_error());
        },
    };
    let ghost mu_spec = Rat { n: (n1 as int) * (n2 as int), d: 2 };
    let ghost ss_spec = Rat {
        n: (n1 as int) * (n2 as int) * ((n1 as int) + (n2 as int) + 1),
        d: 12,
    };
    proof {
        assert(rat_eqv(mu@, mu_spec));
        assert(var_num as int == ss_spec.n);
        assert(rat_eqv(sigma_sq@, ss_spec));
        assert(ss_spec.n != 0);
        if ok_case {
            assert((n1 as int) * (n2 as int) <= 6250000) by (nonlinear_arith)
                requires
                    n1 + n2 <= 5000,
                    1 <= n1,
                    1 <= n2,
            ;
            assert(int_abs(mu@.n) <= 6250000 && mu@.d <= 2);
            assert(var_num as int <= 31256250000) by (nonlinear_arith)
                requires
                    prod as int <= 6250000,
                    n <= 5000,
                    var_num as int == (prod as int) * ((n as int) + 1),
            ;
            assert(int_abs(sigma_sq@.n) <= 31256250000 && sigma_sq@.d <= 12);
        }
    }
    let d = match rsub(u_statistic, mu, Ghost(u_statistic@), Ghost(mu_spec)) {
        Some(v) => v,
        None => {
            proof {
                if ok_case {
                    assert(int_abs(u_statistic@.n) * mu@.d + int_abs(mu@.n) * u_statistic@.d
                        <= 4611686018427387904 && u_statistic@.d * mu@.d
                        <= 4611686018427387904) by (nonlinear_arith)
                        requires
                            0 <= int_abs(u_statistic@.n) <= 50010000,
                            1 <= u_statistic@.d <= 2,
                            0 <= int_abs(mu@.n) <= 6250000,
                            1 <= mu@.d <= 2,
                    ;
                    assert(false);
                }
            }
            return Err(crate::common::overflow_error());
        },
    };
    let ghost dspec = rat_sub(u_statistic@, mu_spec);
    proof {
        if ok_case {
            assert(int_abs(d@.n) <= 112520000 && d@.d <= 4) by (nonlinear_arith)
                requires
                    int_abs(d@.n) <= int_abs(u_statistic@.n) * mu@.d + int_abs(mu@.n)
                        * u_statistic@.d,
                    d@.d <= u_statistic@.d * mu@.d,
                    1 <= d@.d,
                    0 <= int_abs(d@.n),
                    0 <= int_abs(u_statistic@.n) <= 50010000,
                    1 <= u_statistic@.d <= 2,
                    0 <= int_abs(mu@.n) <= 6250000,
                    1 <= mu@.d <= 2,
            ;
        }
    }
    let dabs = d.abs();
    proof {
        lemma_abs_eqv(d@, dspec);
        lemma_abs_eqv(dspec, dspec);
    }
    let numz = match rmul(d, dabs, Ghost(dspec), Ghost(rat_abs(dspec))) {
        Some(v) => v,
        None => {
            proof {
                if ok_case {
                    assert(int_abs(dabs@.n) == int_abs(d@.n) && dabs@.d == d@.d);
                    assert(int_abs(d@.n) * int_abs(dabs@.n) <= 4611686018427387904 && d@.d
                        * dabs@.d <= 4611686018427387904) by (nonlinear_arith)
                        requires
                            0 <= int_abs(d@.n) <= 112520000,
                            1 <= d@.d <= 4,
                            int_abs(dabs@.n) == int_abs(d@.n),
                            dabs@.d == d@.d,
                    ;
                    assert(false);
                }
            }
            return Err(crate::common::overflow_error());
        },
    };
    proof {
        crate::rat::lemma_zero_eqv(sigma_sq@, ss_spec);
        if ok_case {
            assert(int_abs(dabs@.n) == int_abs(d@.n) && dabs@.d == d@.d);
            assert(int_abs(numz@.n) <= 12660750400000000 && numz@.d <= 16) by (nonlinear_arith)
                requires
                    int_abs(numz@.n) <= int_abs(d@.n) * int_abs(dabs@.n),
                    numz@.d <= d@.d * dabs@.d,
                    1 <= numz@.d,
                    0 <= int_abs(numz@.n),
                    0 <= int_abs(d@.n) <= 112520000,
                    1 <= d@.d <= 4,
                    int_abs(dabs@.n) == int_abs(d@.n),
                    dabs@.d == d@.d,
            ;
        }
    }
    let z = match rdiv(numz, sigma_sq, Ghost(rat_signed_sq(dspec)), Ghost(ss_spec)) {
        Some(v) => v,
        None => {
            proof {
                if ok_case {
                    assert(int_abs(numz@.n) * sigma_sq@.d <= 4611686018427387904 && numz@.d
                        * int_abs(sigma_sq@.n) <= 4611686018427387904) by (nonlinear_arith)
                        requires
                            0 <= int_abs(numz@.n) <= 12660750400000000,
                            1 <= numz@.d <= 16,
                            0 <= int_abs(sigma_sq@.n) <= 31256250000,
                            1 <= sigma_sq@.d <= 12,
                    ;
                    assert(false);
                }
            }
            return Err(crate::common::overflow_error());
        },
    };
    Ok(z)
}

} // verus!
