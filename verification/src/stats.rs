//! Descriptive statistics over vectors of exact rationals: sums, means and
//! unbiased sample variances, each with an exact specification over the
//! sequence of mathematical values.

use vstd::prelude::*;
use crate::rat::{
    Rat, Ratio, int_rat, rat_add, rat_sub, rat_mul, rat_sq, rat_div_int, rat_eqv, rat_wf,
    lemma_add_eqv, lemma_sub_eqv, lemma_mul_eqv, lemma_eqv_trans,
};

verus! {

/// The mathematical values of a sequence of executable rationals.
pub open spec fn views(s: Seq<Ratio>) -> Seq<Rat> {
    s.map_values(|r: Ratio| r@)
}

/// Every element of the sequence is a well-formed executable rational.
pub open spec fn seq_wf(s: Seq<Ratio>) -> bool {
    forall|i: int| 0 <= i < s.len() ==> s[i].wf()
}

/// Every element of the sequence is a well-formed mathematical rational.
pub open spec fn rats_wf(s: Seq<Rat>) -> bool {
    forall|i: int| 0 <= i < s.len() ==> rat_wf(#[trigger] s[i])
}

/// Every element is an integer (denominator one) of magnitude at most
/// `b`.  Sums and squared deviations of such sequences stay integral, so
/// the aggregation helpers can promise success on them.
pub open spec fn bounded_ints(s: Seq<Rat>, b: int) -> bool {
    forall|i: int| 0 <= i < s.len() ==> (#[trigger] s[i]).d == 1 && -b <= s[i].n <= b
}

/// Sum of a sequence of rationals.
pub open spec fn rat_sum(s: Seq<Rat>) -> Rat
    decreases s.len(),
{
    if s.len() == 0 {
        int_rat(0)
    } else {
        rat_add(rat_sum(s.drop_last()), s.last())
    }
}

/// Mean of a non-empty sequence of rationals.
pub open spec fn rat_mean(s: Seq<Rat>) -> Rat {
    rat_div_int(rat_sum(s), s.len() as int)
}

/// Sum of squared deviations of the elements of `s` from `m`.
pub open spec fn rat_dev_sq_sum(s: Seq<Rat>, m: Rat) -> Rat
    decreases s.len(),
{
    if s.len() == 0 {
        int_rat(0)
    } else {
        rat_add(rat_dev_sq_sum(s.drop_last(), m), rat_sq(rat_sub(s.last(), m)))
    }
}

/// Unbiased sample variance (denominator `len - 1`) of a sequence with at
/// least two elements.
pub open spec fn rat_sample_var(s: Seq<Rat>) -> Rat {
    rat_div_int(rat_dev_sq_sum(s, rat_mean(s)), s.len() - 1)
}

/// Scaled integer form of the squared-deviation sum: with `m = N / D` and
/// integer data, the deviation of an element `x` is `(x * D - N) / D`, so
/// `D^2` times the squared-deviation sum is the integer computed here.
pub open spec fn int_dev_scaled(s: Seq<Rat>, m: Rat) -> int
    decreases s.len(),
{
    if s.len() == 0 {
        0
    } else {
        int_dev_scaled(s.drop_last(), m) + (s.last().n * m.d - m.n) * (s.last().n * m.d - m.n)
    }
}

/// For integer data the squared-deviation sum equals its scaled integer
/// form divided by the square of the reference point's denominator.
pub proof fn lemma_int_dev_scaled(s: Seq<Rat>, m: Rat)
    requires
        rats_wf(s),
        rat_wf(m),
        forall|i: int| 0 <= i < s.len() ==> (#[trigger] s[i]).d == 1,
    ensures
        rat_wf(Rat { n: int_dev_scaled(s, m), d: m.d * m.d }),
        rat_eqv(Rat { n: int_dev_scaled(s, m), d: m.d * m.d }, rat_dev_sq_sum(s, m)),
    decreases s.len(),
{
    assert(m.d * m.d >= 1) by (nonlinear_arith)
        requires
            m.d >= 1,
    ;
    if s.len() == 0 {
        assert(rat_eqv(Rat { n: 0, d: m.d * m.d }, int_rat(0))) by (nonlinear_arith);
    } else {
        let pre = s.drop_last();
        let x = s.last();
        lemma_int_dev_scaled(pre, m);
        lemma_dev_sq_sum_eqv(pre, m, m);
        lemma_dev_sq_sum_eqv(s, m, m);
        let t = x.n * m.d - m.n;
        let sp = int_dev_scaled(pre, m);
        let e = m.d * m.d;
        let term = rat_sq(rat_sub(x, m));
        assert(rat_wf(term) && rat_eqv(Rat { n: t * t, d: e }, term)) by (nonlinear_arith)
            requires
                x.d == 1,
                m.d >= 1,
                t == x.n * m.d - m.n,
                e == m.d * m.d,
                term.n == (x.n * m.d + (-m.n) * x.d) * (x.n * m.d + (-m.n) * x.d),
                term.d == (x.d * m.d) * (x.d * m.d),
        ;
        lemma_add_eqv(
            Rat { n: sp, d: e },
            Rat { n: t * t, d: e },
            rat_dev_sq_sum(pre, m),
            term,
        );
        assert(rat_eqv(
            Rat { n: sp + t * t, d: e },
            rat_add(Rat { n: sp, d: e }, Rat { n: t * t, d: e }),
        )) by (nonlinear_arith)
            requires
                e >= 1,
                rat_add(Rat { n: sp, d: e }, Rat { n: t * t, d: e }) == (Rat {
                    n: sp * e + (t * t) * e,
                    d: e * e,
                }),
        ;
        lemma_eqv_trans(
            Rat { n: sp + t * t, d: e },
            rat_add(Rat { n: sp, d: e }, Rat { n: t * t, d: e }),
            rat_dev_sq_sum(s, m),
        );
    }
}

/// The sum of well-formed rationals is well formed.
pub proof fn lemma_sum_wf(s: Seq<Rat>)
    requires
        rats_wf(s),
    ensures
        rat_wf(rat_sum(s)),
    decreases s.len(),
{
    if s.len() > 0 {
        lemma_sum_wf(s.drop_last());
        lemma_add_eqv(rat_sum(s.drop_last()), s.last(), rat_sum(s.drop_last()), s.last());
    }
}

/// `rat_div_int` respects rational equivalence (for a positive divisor).
pub proof fn lemma_div_int_eqv(a: Rat, a2: Rat, k: int)
    by (nonlinear_arith)
    requires
        rat_wf(a),
        rat_wf(a2),
        rat_eqv(a, a2),
        k >= 1,
    ensures
        rat_eqv(rat_div_int(a, k), rat_div_int(a2, k)),
        rat_wf(rat_div_int(a, k)),
{
}

/// The sum of squared deviations is well formed and respects equivalence of
/// the reference point.
pub proof fn lemma_dev_sq_sum_eqv(s: Seq<Rat>, m: Rat, m2: Rat)
    requires
        rats_wf(s),
        rat_wf(m),
        rat_wf(m2),
        rat_eqv(m, m2),
    ensures
        rat_eqv(rat_dev_sq_sum(s, m), rat_dev_sq_sum(s, m2)),
        rat_wf(rat_dev_sq_sum(s, m)),
        rat_wf(rat_dev_sq_sum(s, m2)),
    decreases s.len(),
{
    if s.len() > 0 {
        lemma_dev_sq_sum_eqv(s.drop_last(), m, m2);
        let x = s.last();
        assert(rat_wf(x));
        lemma_sub_eqv(x, m, x, m2);
        lemma_sub_eqv(x, m2, x, m2);
        lemma_mul_eqv(rat_sub(x, m), rat_sub(x, m), rat_sub(x, m2), rat_sub(x, m2));
        lemma_mul_eqv(rat_sub(x, m2), rat_sub(x, m2), rat_sub(x, m2), rat_sub(x, m2));
        lemma_add_eqv(
            rat_dev_sq_sum(s.drop_last(), m),
            rat_sq(rat_sub(x, m)),
            rat_dev_sq_sum(s.drop_last(), m2),
            rat_sq(rat_sub(x, m2)),
        );
        lemma_add_eqv(
            rat_dev_sq_sum(s.drop_last(), m2),
            rat_sq(rat_sub(x, m2)),
            rat_dev_sq_sum(s.drop_last(), m2),
            rat_sq(rat_sub(x, m2)),
        );
    }
}

/// A prefix of a well-formed sequence is well formed.
pub proof fn lemma_take_wf(s: Seq<Rat>, j: int)
    requires
        rats_wf(s),
        0 <= j <= s.len(),
    ensures
        rats_wf(s.take(j)),
{
    assert forall|i: int| 0 <= i < s.take(j).len() implies rat_wf(#[trigger] s.take(j)[i]) by {
        assert(s.take(j)[i] == s[i]);
    }
}

/// Views of a well-formed sequence are well formed.
pub proof fn lemma_views_wf(s: Seq<Ratio>)
    requires
        seq_wf(s),
    ensures
        rats_wf(views(s)),
{
}

/// Sum of a vector of rationals; `None` on numeric overflow.
pub fn sum(data: &Vec<Ratio>) -> (r: Option<Ratio>)
    requires
        seq_wf(data@),
    ensures
        r matches Some(v) ==> v.wf() && rat_eqv(v@, rat_sum(views(data@))),
        bounded_ints(views(data@), 2048) && data@.len() <= 1048576 ==> (r matches Some(
            v,
        ) && v@.d == 1 && -(2048 * data@.len()) <= v@.n <= 2048 * data@.len()),
{
    let mut acc = Ratio::from_i32(0);
    let mut i: usize = 0;
    proof {
        assert(views(data@).take(0int) =~= Seq::<Rat>::empty());
    }
    while i < data.len()
        invariant
            i <= data.len(),
            seq_wf(data@),
            acc.wf(),
            rat_eqv(acc@, rat_sum(views(data@).take(i as int))),
            bounded_ints(views(data@), 2048) && data@.len() <= 1048576 ==> acc@.d == 1
                && -(2048 * i) <= acc@.n <= 2048 * i,
        decreases data.len() - i,
    {
        let x = data[i];
        proof {
            if bounded_ints(views(data@), 2048) && data@.len() <= 1048576 {
                assert(views(data@)[i as int] == x@);
                assert(2048 * (i + 1) == 2048 * i + 2048) by (nonlinear_arith);
                assert(2048 * data@.len() <= 2048 * 1048576) by (nonlinear_arith)
                    requires
                        data@.len() <= 1048576,
                ;
                assert(2048 * i <= 2048 * data@.len()) by (nonlinear_arith)
                    requires
                        i <= data@.len(),
                ;
                assert(2048 * (i + 1) <= 2048 * data@.len()) by (nonlinear_arith)
                    requires
                        i + 1 <= data@.len(),
                ;
                assert(rat_add(acc@, x@).n == acc@.n * 1 + x@.n * 1);
                assert(acc@.n * 1 == acc@.n && x@.n * 1 == x@.n) by (nonlinear_arith);
                assert(rat_add(acc@, x@).d == 1) by (nonlinear_arith)
                    requires
                        acc@.d == 1,
                        x@.d == 1,
                        rat_add(acc@, x@).d == acc@.d * x@.d,
                ;
                assert(crate::rat::int_abs(rat_add(acc@, x@).n)
                    <= crate::rat::COMPONENT_BOUND as int);
            }
        }
        let next = match acc.add(x) {
            Some(v) => v,
            None => {
                return None;
            },
        };
        proof {
            let pre = views(data@).take(i as int);
            let post = views(data@).take(i + 1);
            assert(post.drop_last() =~= pre);
            assert(post.last() == x@);
            lemma_views_wf(data@);
            lemma_take_wf(views(data@), i as int);
            lemma_take_wf(views(data@), i + 1);
            lemma_sum_wf(pre);
            lemma_sum_wf(post);
            lemma_add_eqv(acc@, x@, rat_sum(pre), x@);
            lemma_eqv_trans(next@, rat_add(acc@, x@), rat_sum(post));
        }
        acc = next;
        i = i + 1;
    }
    proof {
        assert(views(data@).take(data@.len() as int) =~= views(data@));
    }
    Some(acc)
}

/// Mean of a non-empty vector of rationals; `None` on numeric overflow.
pub fn mean(data: &Vec<Ratio>) -> (r: Option<Ratio>)
    requires
        seq_wf(data@),
        1 <= data@.len() <= u32::MAX,
    ensures
        r matches Some(v) ==> v.wf() && rat_eqv(v@, rat_mean(views(data@))),
        bounded_ints(views(data@), 2048) && data@.len() <= 1048576 ==> (r matches Some(v)
            && v@.d <= data@.len() && -(2048 * data@.len()) <= v@.n <= 2048 * data@.len()),
{
    let s = match sum(data) {
        Some(v) => v,
        None => {
            return None;
        },
    };
    let n = data.len() as u32;
    proof {
        if bounded_ints(views(data@), 2048) && data@.len() <= 1048576 {
            assert(2048 * data@.len() <= 2048 * 1048576) by (nonlinear_arith)
                requires
                    data@.len() <= 1048576,
            ;
            assert(crate::rat::int_abs(s@.n) <= crate::rat::COMPONENT_BOUND as int);
            assert(s@.d * (n as int) == n as int) by (nonlinear_arith)
                requires
                    s@.d == 1,
            ;
        }
    }
    let m = match s.div_u32(n) {
        Some(v) => v,
        None => {
            return None;
        },
    };
    proof {
        lemma_views_wf(data@);
        lemma_sum_wf(views(data@));
        lemma_div_int_eqv(s@, rat_sum(views(data@)), n as int);
        lemma_div_int_eqv(rat_sum(views(data@)), rat_sum(views(data@)), n as int);
        lemma_eqv_trans(m@, rat_div_int(s@, n as int), rat_mean(views(data@)));
    }
    Some(m)
}

/// Sum of squared deviations of a vector from `m`; `None` on numeric
/// overflow.
/// Tests whether every element is an integer of magnitude at most `b`.
fn all_bounded_ints(data: &Vec<Ratio>, b: i64) -> (r: bool)
    requires
        seq_wf(data@),
        b >= 1,
    ensures
        r == bounded_ints(views(data@), b as int),
{
    let mut i: usize = 0;
    while i < data.len()
        invariant
            i <= data.len(),
            seq_wf(data@),
            b >= 1,
            forall|j: int|
                0 <= j < i ==> (#[trigger] views(data@)[j]).d == 1 && -(b as int)
                    <= views(data@)[j].n <= b as int,
        decreases data@.len() - i,
    {
        let x = data[i];
        proof {
            assert(views(data@)[i as int] == x@);
        }
        if !(x.den() == 1 && -b <= x.num() && x.num() <= b) {
            return false;
        }
        i = i + 1;
    }
    true
}

/// Squared-deviation sum of integer data against a rational reference
/// point `m = N / D`, computed as the integer sum of `(x * D - N)^2`
/// followed by a single division by `D^2`: every intermediate value is an
/// integer, so the computation cannot leave the exact range.
fn dev_sq_sum_scaled(data: &Vec<Ratio>, m: Ratio) -> (r: Option<Ratio>)
    requires
        seq_wf(data@),
        m.wf(),
        bounded_ints(views(data@), 1024),
        1 <= m@.d <= 64,
        -131072 <= m@.n <= 131072,
        data@.len() <= 64,
    ensures
        r matches Some(v) && v.wf() && rat_eqv(v@, rat_dev_sq_sum(views(data@), m@))
            && crate::rat::int_abs(v@.n) <= 2473901162496 && v@.d <= 4096,
        bounded_ints(views(data@), 16) && m@.d <= 6 && -12288 <= m@.n <= 12288 && data@.len()
            <= 6 ==> (r matches Some(v) && crate::rat::int_abs(v@.n) <= 920180736 && v@.d
            <= 36),
{
    let ghost tight = bounded_ints(views(data@), 16) && m@.d <= 6 && -12288 <= m@.n <= 12288
        && data@.len() <= 6;
    let md: i64 = m.den();
    let mn: i64 = m.num();
    let mut acc: i64 = 0;
    let mut i: usize = 0;
    proof {
        assert(views(data@).take(0int) =~= Seq::<Rat>::empty());
    }
    while i < data.len()
        invariant
            i <= data.len(),
            seq_wf(data@),
            m.wf(),
            bounded_ints(views(data@), 1024),
            1 <= m@.d <= 64,
            -131072 <= m@.n <= 131072,
            data@.len() <= 64,
            md as int == m@.d,
            mn as int == m@.n,
            acc as int == int_dev_scaled(views(data@).take(i as int), m@),
            0 <= acc <= 38654705664 * i,
            tight == (bounded_ints(views(data@), 16) && m@.d <= 6 && -12288 <= m@.n <= 12288
                && data@.len() <= 6),
            tight ==> acc <= 153363456 * i,
        decreases data@.len() - i,
    {
        let x = data[i];
        proof {
            assert(views(data@)[i as int] == x@);
            assert(-65536 <= x@.n * m@.d <= 65536) by (nonlinear_arith)
                requires
                    -1024 <= x@.n <= 1024,
                    1 <= m@.d <= 64,
            ;
        }
        let t: i64 = x.num() * md - mn;
        proof {
            assert(0 <= (t as int) * (t as int) <= 38654705664) by (nonlinear_arith)
                requires
                    -196608 <= t as int <= 196608,
            ;
        }
        let sq: i64 = t * t;
        proof {
            let pre = views(data@).take(i as int);
            let post = views(data@).take(i + 1);
            assert(post.drop_last() =~= pre);
            assert(post.last() == x@);
            assert(t as int == x@.n * m@.d - m@.n);
            assert((post.last().n * m@.d - m@.n) * (post.last().n * m@.d - m@.n) == (t as int) * (
            t as int));
            assert(38654705664 * (i + 1) == 38654705664 * i + 38654705664) by (nonlinear_arith);
            assert(38654705664 * (i + 1) <= 38654705664 * 64) by (nonlinear_arith)
                requires
                    i + 1 <= 64,
            ;
            if tight {
                assert(-96 <= x@.n * m@.d <= 96) by (nonlinear_arith)
                    requires
                        -16 <= x@.n <= 16,
                        1 <= m@.d <= 6,
                ;
                assert((t as int) * (t as int) <= 153363456) by (nonlinear_arith)
                    requires
                        -12384 <= t as int <= 12384,
                ;
                assert(153363456 * (i + 1) == 153363456 * i + 153363456) by (nonlinear_arith);
            }
        }
        acc = acc + sq;
        i = i + 1;
    }
    proof {
        assert(views(data@).take(data@.len() as int) =~= views(data@));
        assert(1 <= (md as int) * (md as int) <= 4096) by (nonlinear_arith)
            requires
                1 <= md as int <= 64,
        ;
        if tight {
            assert(acc <= 153363456 * 6) by (nonlinear_arith)
                requires
                    acc <= 153363456 * i,
                    i <= 6,
            ;
            assert((md as int) * (md as int) <= 36) by (nonlinear_arith)
                requires
                    1 <= md as int <= 6,
            ;
        }
    }
    let dd: i64 = md * md;
    match Ratio::new(acc, dd) {
        Some(v) => {
            proof {
                lemma_views_wf(data@);
                lemma_int_dev_scaled(views(data@), m@);
                lemma_dev_sq_sum_eqv(views(data@), m@, m@);
                assert(rat_eqv(v@, Rat { n: acc as int, d: dd as int }));
                lemma_eqv_trans(
                    v@,
                    Rat { n: acc as int, d: dd as int },
                    rat_dev_sq_sum(views(data@), m@),
                );
            }
            Some(v)
        },
        None => {
            proof {
                assert(false);
            }
            None
        },
    }
}

pub fn dev_sq_sum(data: &Vec<Ratio>, m: Ratio) -> (r: Option<Ratio>)
    requires
        seq_wf(data@),
        m.wf(),
    ensures
        r matches Some(v) ==> v.wf() && rat_eqv(v@, rat_dev_sq_sum(views(data@), m@)),
        bounded_ints(views(data@), 1048576) && m@.d == 1 && -1048576 <= m@.n <= 1048576
            && data@.len() <= 1048576 ==> r is Some,
        bounded_ints(views(data@), 1024) && 1 <= m@.d <= 64 && -131072 <= m@.n <= 131072
            && data@.len() <= 64 ==> (r matches Some(v) && crate::rat::int_abs(v@.n)
            <= 2473901162496 && v@.d <= 4096),
        bounded_ints(views(data@), 16) && 1 <= m@.d <= 6 && -12288 <= m@.n <= 12288
            && data@.len() <= 6 ==> (r matches Some(v) && crate::rat::int_abs(v@.n)
            <= 920180736 && v@.d <= 36),
{
    proof {
        if bounded_ints(views(data@), 16) && 1 <= m@.d <= 6 && -12288 <= m@.n <= 12288
            && data@.len() <= 6 {
            assert(bounded_ints(views(data@), 1024)) by {
                assert(forall|i: int|
                    0 <= i < views(data@).len() ==> (#[trigger] views(data@)[i]).d == 1 && -16
                        <= views(data@)[i].n <= 16);
            }
        }
    }
    let md0 = m.den();
    let mn0 = m.num();
    if data.len() <= 64 && md0 <= 64 && -131072 <= mn0 && mn0 <= 131072 && all_bounded_ints(
        data,
        1024,
    ) {
        return dev_sq_sum_scaled(data, m);
    }
    let ghost int_case = bounded_ints(views(data@), 1048576) && m@.d == 1 && -1048576 <= m@.n
        <= 1048576 && data@.len() <= 1048576;
    let mut acc = Ratio::from_i32(0);
    let mut i: usize = 0;
    proof {
        assert(views(data@).take(0int) =~= Seq::<Rat>::empty());
    }
    while i < data.len()
        invariant
            i <= data.len(),
            seq_wf(data@),
            m.wf(),
            acc.wf(),
            rat_eqv(acc@, rat_dev_sq_sum(views(data@).take(i as int), m@)),
            int_case == (bounded_ints(views(data@), 1048576) && m@.d == 1 && -1048576 <= m@.n
                <= 1048576 && data@.len() <= 1048576),
            int_case ==> acc@.d == 1 && -(4398046511104 * i) <= acc@.n <= 4398046511104 * i,
            !(bounded_ints(views(data@), 1024) && 1 <= m@.d <= 64 && -131072 <= m@.n <= 131072
                && data@.len() <= 64),
        decreases data.len() - i,
    {
        let x = data[i];
        proof {
            if int_case {
                assert(views(data@)[i as int] == x@);
                assert(rat_sub(x@, m@).n == x@.n * 1 + (-m@.n) * 1 && rat_sub(x@, m@).d == 1)
                    by (nonlinear_arith)
                    requires
                        x@.d == 1,
                        m@.d == 1,
                        rat_sub(x@, m@).n == x@.n * m@.d + (-m@.n) * x@.d,
                        rat_sub(x@, m@).d == x@.d * m@.d,
                ;
                assert(x@.n * 1 == x@.n && (-m@.n) * 1 == -m@.n) by (nonlinear_arith);
            }
        }
        let d = match x.sub(m) {
            Some(v) => v,
            None => {
                return None;
            },
        };
        proof {
            if int_case {
                assert(rat_mul(d@, d@).d == 1) by (nonlinear_arith)
                    requires
                        d@.d == 1,
                        rat_mul(d@, d@).d == d@.d * d@.d,
                ;
                assert(crate::rat::int_abs(rat_mul(d@, d@).n) <= 4398046511104)
                    by (nonlinear_arith)
                    requires
                        -2097152 <= d@.n <= 2097152,
                        rat_mul(d@, d@).n == d@.n * d@.n,
                ;
            }
        }
        let sq = match d.mul(d) {
            Some(v) => v,
            None => {
                return None;
            },
        };
        proof {
            if int_case {
                assert(4398046511104 * (i + 1) == 4398046511104 * i + 4398046511104)
                    by (nonlinear_arith);
                assert(4398046511104 * (i + 1) <= 4398046511104 * 1048576) by (nonlinear_arith)
                    requires
                        i + 1 <= 1048576,
                ;
                assert(rat_add(acc@, sq@).n == acc@.n + sq@.n && rat_add(acc@, sq@).d == 1)
                    by (nonlinear_arith)
                    requires
                        acc@.d == 1,
                        sq@.d == 1,
                        rat_add(acc@, sq@).n == acc@.n * sq@.d + sq@.n * acc@.d,
                        rat_add(acc@, sq@).d == acc@.d * sq@.d,
                ;
            }
        }
        let next = match acc.add(sq) {
            Some(v) => v,
            None => {
                return None;
            },
        };
        proof {
            let pre = views(data@).take(i as int);
            let post = views(data@).take(i + 1);
            assert(post.drop_last() =~= pre);
            assert(post.last() == x@);
            lemma_views_wf(data@);
            lemma_take_wf(views(data@), i as int);
            lemma_take_wf(views(data@), i + 1);
            lemma_dev_sq_sum_eqv(pre, m@, m@);
            lemma_dev_sq_sum_eqv(post, m@, m@);
            lemma_sub_eqv(x@, m@, x@, m@);
            lemma_mul_eqv(d@, d@, rat_sub(x@, m@), rat_sub(x@, m@));
            lemma_mul_eqv(rat_sub(x@, m@), rat_sub(x@, m@), rat_sub(x@, m@), rat_sub(x@, m@));
            lemma_eqv_trans(sq@, rat_mul(d@, d@), rat_sq(rat_sub(x@, m@)));
            lemma_add_eqv(acc@, sq@, rat_dev_sq_sum(pre, m@), rat_sq(rat_sub(x@, m@)));
            lemma_eqv_trans(next@, rat_add(acc@, sq@), rat_dev_sq_sum(post, m@));
        }
        acc = next;
        i = i + 1;
    }
    proof {
        assert(views(data@).take(data@.len() as int) =~= views(data@));
    }
    Some(acc)
}

/// Mean and unbiased sample variance of a vector with at least two
/// elements; `None` on numeric overflow.  On integer data of magnitude at
/// most 1024 with at most 64 elements the scaled integer form of the
/// deviations keeps every intermediate value in range, so success is
/// promised there.
pub fn mean_and_sample_variance(data: &Vec<Ratio>) -> (r: Option<(Ratio, Ratio)>)
    requires
        seq_wf(data@),
        2 <= data@.len() <= u32::MAX,
    ensures
        r matches Some(v) ==> v.0.wf() && rat_eqv(v.0@, rat_mean(views(data@))) && v.1.wf()
            && rat_eqv(v.1@, rat_sample_var(views(data@))),
        bounded_ints(views(data@), 1024) && data@.len() <= 64 ==> (r matches Some(v)
            && v.0@.d <= 64 && -131072 <= v.0@.n <= 131072 && crate::rat::int_abs(v.1@.n)
            <= 2473901162496 && v.1@.d <= 258048),
        bounded_ints(views(data@), 16) && data@.len() <= 6 ==> (r matches Some(v) && v.0@.d
            <= 6 && -12288 <= v.0@.n <= 12288 && crate::rat::int_abs(v.1@.n) <= 920180736
            && v.1@.d <= 180),
{
    let ghost in_range = bounded_ints(views(data@), 1024) && data@.len() <= 64;
    let ghost tight = bounded_ints(views(data@), 16) && data@.len() <= 6;
    proof {
        if tight {
            assert(bounded_ints(views(data@), 1024)) by {
                assert(forall|i: int|
                    0 <= i < views(data@).len() ==> (#[trigger] views(data@)[i]).d == 1 && -16
                        <= views(data@)[i].n <= 16);
            }
        }
    }
    proof {
        if in_range {
            assert(bounded_ints(views(data@), 2048)) by {
                assert(forall|i: int|
                    0 <= i < views(data@).len() ==> (#[trigger] views(data@)[i]).d == 1 && -1024
                        <= views(data@)[i].n <= 1024);
            }
        }
    }
    let m = match mean(data) {
        Some(v) => v,
        None => {
            proof {
                if in_range {
                    assert(false);
                }
            }
            return None;
        },
    };
    proof {
        if in_range {
            assert(1 <= m@.d <= 64 && -131072 <= m@.n <= 131072);
        }
        if tight {
            assert(1 <= m@.d <= 6 && -12288 <= m@.n <= 12288);
        }
    }
    let dss = match dev_sq_sum(data, m) {
        Some(v) => v,
        None => {
            proof {
                if in_range {
                    assert(false);
                }
            }
            return None;
        },
    };
    let k = (data.len() - 1) as u32;
    let var = match dss.div_u32(k) {
        Some(v) => v,
        None => {
            proof {
                if in_range {
                    assert(dss@.d * (k as int) <= 258048) by (nonlinear_arith)
                        requires
                            1 <= dss@.d <= 4096,
                            1 <= k as int <= 63,
                    ;
                    assert(false);
                }
            }
            return None;
        },
    };
    proof {
        if in_range {
            assert(var@.d <= 258048) by (nonlinear_arith)
                requires
                    var@.d <= dss@.d * (k as int),
                    1 <= dss@.d <= 4096,
                    1 <= k as int <= 63,
            ;
        }
        if tight {
            assert(var@.d <= 180) by (nonlinear_arith)
                requires
                    var@.d <= dss@.d * (k as int),
                    1 <= dss@.d <= 36,
                    1 <= k as int <= 5,
            ;
        }
    }
    proof {
        let s = views(data@);
        lemma_views_wf(data@);
        lemma_sum_wf(s);
        lemma_div_int_eqv(rat_sum(s), rat_sum(s), s.len() as int);
        lemma_dev_sq_sum_eqv(s, m@, rat_mean(s));
        lemma_div_int_eqv(
            rat_dev_sq_sum(s, rat_mean(s)),
            rat_dev_sq_sum(s, rat_mean(s)),
            k as int,
        );
        lemma_div_int_eqv(dss@, rat_dev_sq_sum(s, m@), k as int);
        lemma_div_int_eqv(rat_dev_sq_sum(s, m@), rat_dev_sq_sum(s, rat_mean(s)), k as int);
        lemma_eqv_trans(
            rat_div_int(dss@, k as int),
            rat_div_int(rat_dev_sq_sum(s, m@), k as int),
            rat_sample_var(s),
        );
        lemma_eqv_trans(var@, rat_div_int(dss@, k as int), rat_sample_var(s));
    }
    Some((m, var))
}

/// Two sequences are pointwise equivalent rationals.
pub open spec fn ptwise_eqv(s: Seq<Rat>, s2: Seq<Rat>) -> bool {
    s.len() == s2.len() && (forall|i: int|
        0 <= i < s.len() ==> rat_eqv(#[trigger] s[i], #[trigger] s2[i]))
}

/// Sums of pointwise-equivalent sequences are equivalent.
pub proof fn lemma_sum_ptwise_eqv(s: Seq<Rat>, s2: Seq<Rat>)
    requires
        rats_wf(s),
        rats_wf(s2),
        ptwise_eqv(s, s2),
    ensures
        rat_eqv(rat_sum(s), rat_sum(s2)),
    decreases s.len(),
{
    if s.len() > 0 {
        assert(ptwise_eqv(s.drop_last(), s2.drop_last()));
        lemma_sum_ptwise_eqv(s.drop_last(), s2.drop_last());
        lemma_sum_wf(s.drop_last());
        lemma_sum_wf(s2.drop_last());
        lemma_add_eqv(rat_sum(s.drop_last()), s.last(), rat_sum(s2.drop_last()), s2.last());
    }
}

/// Sums of squared deviations of pointwise-equivalent sequences from
/// equivalent reference points are equivalent.
pub proof fn lemma_dev_sq_sum_ptwise_eqv(s: Seq<Rat>, s2: Seq<Rat>, m: Rat, m2: Rat)
    requires
        rats_wf(s),
        rats_wf(s2),
        ptwise_eqv(s, s2),
        rat_wf(m),
        rat_wf(m2),
        rat_eqv(m, m2),
    ensures
        rat_eqv(rat_dev_sq_sum(s, m), rat_dev_sq_sum(s2, m2)),
    decreases s.len(),
{
    lemma_dev_sq_sum_eqv(s, m, m);
    lemma_dev_sq_sum_eqv(s2, m2, m2);
    if s.len() > 0 {
        assert(ptwise_eqv(s.drop_last(), s2.drop_last()));
        lemma_dev_sq_sum_ptwise_eqv(s.drop_last(), s2.drop_last(), m, m2);
        lemma_sub_eqv(s.last(), m, s2.last(), m2);
        lemma_sub_eqv(s2.last(), m2, s2.last(), m2);
        lemma_mul_eqv(rat_sub(s.last(), m), rat_sub(s.last(), m), rat_sub(s2.last(), m2), rat_sub(s2.last(), m2));
        lemma_mul_eqv(rat_sub(s2.last(), m2), rat_sub(s2.last(), m2), rat_sub(s2.last(), m2), rat_sub(s2.last(), m2));
        lemma_dev_sq_sum_eqv(s.drop_last(), m, m);
        lemma_dev_sq_sum_eqv(s2.drop_last(), m2, m2);
        lemma_add_eqv(
            rat_dev_sq_sum(s.drop_last(), m),
            rat_sq(rat_sub(s.last(), m)),
            rat_dev_sq_sum(s2.drop_last(), m2),
            rat_sq(rat_sub(s2.last(), m2)),
        );
    }
}

/// Means of pointwise-equivalent non-empty sequences are equivalent.
pub proof fn lemma_mean_ptwise_eqv(s: Seq<Rat>, s2: Seq<Rat>)
    requires
        rats_wf(s),
        rats_wf(s2),
        ptwise_eqv(s, s2),
        s.len() >= 1,
    ensures
        rat_eqv(rat_mean(s), rat_mean(s2)),
        rat_wf(rat_mean(s)),
        rat_wf(rat_mean(s2)),
{
    lemma_sum_ptwise_eqv(s, s2);
    lemma_sum_wf(s);
    lemma_sum_wf(s2);
    lemma_div_int_eqv(rat_sum(s), rat_sum(s2), s.len() as int);
    lemma_div_int_eqv(rat_sum(s2), rat_sum(s2), s.len() as int);
}

/// Sample variances of pointwise-equivalent sequences are equivalent.
pub proof fn lemma_var_ptwise_eqv(s: Seq<Rat>, s2: Seq<Rat>)
    requires
        rats_wf(s),
        rats_wf(s2),
        ptwise_eqv(s, s2),
        s.len() >= 2,
    ensures
        rat_eqv(rat_sample_var(s), rat_sample_var(s2)),
        rat_wf(rat_sample_var(s)),
        rat_wf(rat_sample_var(s2)),
{
    lemma_mean_ptwise_eqv(s, s2);
    lemma_dev_sq_sum_ptwise_eqv(s, s2, rat_mean(s), rat_mean(s2));
    lemma_dev_sq_sum_eqv(s, rat_mean(s), rat_mean(s));
    lemma_dev_sq_sum_eqv(s2, rat_mean(s2), rat_mean(s2));
    lemma_div_int_eqv(
        rat_dev_sq_sum(s, rat_mean(s)),
        rat_dev_sq_sum(s2, rat_mean(s2)),
        s.len() - 1,
    );
    lemma_div_int_eqv(
        rat_dev_sq_sum(s2, rat_mean(s2)),
        rat_dev_sq_sum(s2, rat_mean(s2)),
        s.len() - 1,
    );
}

/// A sum of squared deviations is non-negative.
pub proof fn lemma_dev_sq_sum_nonneg(s: Seq<Rat>, m: Rat)
    requires
        rats_wf(s),
        rat_wf(m),
    ensures
        crate::rat::rat_le(crate::rat::int_rat(0), rat_dev_sq_sum(s, m)),
    decreases s.len(),
{
    lemma_dev_sq_sum_eqv(s, m, m);
    if s.len() > 0 {
        lemma_dev_sq_sum_nonneg(s.drop_last(), m);
        lemma_dev_sq_sum_eqv(s.drop_last(), m, m);
        lemma_sub_eqv(s.last(), m, s.last(), m);
        crate::rat::lemma_self_mul_nonneg(rat_sub(s.last(), m));
        lemma_mul_eqv(rat_sub(s.last(), m), rat_sub(s.last(), m), rat_sub(s.last(), m), rat_sub(s.last(), m));
        crate::rat::lemma_add_nonneg(rat_dev_sq_sum(s.drop_last(), m), rat_sq(rat_sub(s.last(), m)));
    }
}

/// A sample variance is non-negative.
pub proof fn lemma_var_nonneg(s: Seq<Rat>)
    requires
        rats_wf(s),
        s.len() >= 2,
    ensures
        crate::rat::rat_le(crate::rat::int_rat(0), rat_sample_var(s)),
        rat_wf(rat_sample_var(s)),
{
    lemma_sum_wf(s);
    lemma_div_int_eqv(rat_sum(s), rat_sum(s), s.len() as int);
    lemma_dev_sq_sum_nonneg(s, rat_mean(s));
    lemma_dev_sq_sum_eqv(s, rat_mean(s), rat_mean(s));
    crate::rat::lemma_div_int_nonneg(rat_dev_sq_sum(s, rat_mean(s)), s.len() - 1);
    lemma_div_int_eqv(rat_dev_sq_sum(s, rat_mean(s)), rat_dev_sq_sum(s, rat_mean(s)), s.len() - 1);
}

} // verus!
