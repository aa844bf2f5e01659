//! Pairwise similarity scoring.
//!
//! Two movies are compared on their matched rating pairs: every pair
//! `(ra, rb)` with `ra` from the first movie's ratings, `rb` from the
//! second's, and the same user behind both. Over those pairs the scorer
//! forms `sum_a` (the first ratings), `sum_b` (the second ratings) and
//! `dot` (their products), and the score is the real number
//! `dot / (sqrt(sum_a) * sqrt(sum_b))`. The denominator sums raw
//! ratings, not squares; that is the intended formula here, even though
//! textbook cosine similarity would square them.
//!
//! When the denominator is not a positive real — in particular when the
//! movies share no rater, so every sum is zero — the score is the
//! invalid marker and is never compared against a valid score.
//!
//! A score is stored exactly, as its integer components `dot`, `sum_a`
//! and `sum_b`, so no rounding ever happens.

use vstd::prelude::*;
use vstd::arithmetic::div_mod::lemma_fundamental_div_mod;
use vstd::arithmetic::div_mod::lemma_mod_bound;

verus! {

/// One user's rating of one movie. The rating value is an integer on
/// whatever fixed scale the caller chose (for example tenths of a star).
#[derive(Clone, Copy, PartialEq, Eq, Structural, Debug)]
pub struct Rating {
    pub user_id: u32,
    pub movie_id: u32,
    pub rating: i32,
}

/// A similarity score: either the invalid marker (the denominator of
/// the score formula is not a positive real) or the exact components of
/// the value `dot / (sqrt(sum_a) * sqrt(sum_b))`. Every score that
/// `score` returns has positive `sum_a` and `sum_b` (see `score_wf`).
#[derive(Clone, Copy, PartialEq, Eq, Structural, Debug)]
pub enum SimScore {
    Invalid,
    Valid { dot: i64, sum_a: i64, sum_b: i64 },
}

/// Sum of `ra.rating * rb.rating` over the entries `rb` of `b` rated by
/// `ra`'s user.
pub open spec fn dot_row(ra: Rating, b: Seq<Rating>) -> int
    decreases b.len(),
{
    if b.len() == 0 {
        0
    } else {
        dot_row(ra, b.drop_last()) + if b.last().user_id == ra.user_id {
            ra.rating * b.last().rating
        } else {
            0
        }
    }
}

/// Sum of `ra.rating * rb.rating` over all matched pairs of `a` and `b`.
pub open spec fn dot_sum(a: Seq<Rating>, b: Seq<Rating>) -> int
    decreases a.len(),
{
    if a.len() == 0 {
        0
    } else {
        dot_sum(a.drop_last(), b) + dot_row(a.last(), b)
    }
}

/// Sum of `ra.rating` over the entries of `b` rated by `ra`'s user:
/// `ra` is counted once per match.
pub open spec fn sum_a_row(ra: Rating, b: Seq<Rating>) -> int
    decreases b.len(),
{
    if b.len() == 0 {
        0
    } else {
        sum_a_row(ra, b.drop_last()) + if b.last().user_id == ra.user_id {
            ra.rating as int
        } else {
            0
        }
    }
}

/// Sum of `ra.rating` over all matched pairs of `a` and `b`.
pub open spec fn sum_a(a: Seq<Rating>, b: Seq<Rating>) -> int
    decreases a.len(),
{
    if a.len() == 0 {
        0
    } else {
        sum_a(a.drop_last(), b) + sum_a_row(a.last(), b)
    }
}

/// Sum of `rb.rating` over the entries `rb` of `b` rated by `ra`'s user.
pub open spec fn sum_b_row(ra: Rating, b: Seq<Rating>) -> int
    decreases b.len(),
{
    if b.len() == 0 {
        0
    } else {
        sum_b_row(ra, b.drop_last()) + if b.last().user_id == ra.user_id {
            b.last().rating as int
        } else {
            0
        }
    }
}

/// Sum of `rb.rating` over all matched pairs of `a` and `b`.
pub open spec fn sum_b(a: Seq<Rating>, b: Seq<Rating>) -> int
    decreases a.len(),
{
    if a.len() == 0 {
        0
    } else {
        sum_b(a.drop_last(), b) + sum_b_row(a.last(), b)
    }
}

/// The machine bounds under which `score` can run: the accumulators are
/// 64-bit, so the three exact sums must fit, and the lengths are capped
/// so the intermediate 128-bit arithmetic cannot wrap.
pub open spec fn score_fits(a: Seq<Rating>, b: Seq<Rating>) -> bool {
    &&& a.len() <= u32::MAX
    &&& b.len() <= u32::MAX
    &&& -i64::MAX <= dot_sum(a, b) <= i64::MAX
    &&& -i64::MAX <= sum_a(a, b) <= i64::MAX
    &&& -i64::MAX <= sum_b(a, b) <= i64::MAX
}

/// What `score` returns: the invalid marker unless both denominator
/// sums are positive, and otherwise the exact score components.
pub open spec fn spec_score(a: Seq<Rating>, b: Seq<Rating>) -> SimScore
    recommends
        score_fits(a, b),
{
    if sum_a(a, b) > 0 && sum_b(a, b) > 0 {
        SimScore::Valid {
            dot: dot_sum(a, b) as i64,
            sum_a: sum_a(a, b) as i64,
            sum_b: sum_b(a, b) as i64,
        }
    } else {
        SimScore::Invalid
    }
}

/// Scores movie `a` against movie `b` on the ratings of their common
/// raters. Every pair of ratings with the same user contributes; with
/// no common rater all sums stay zero and the result is the invalid
/// marker.
pub fn score(a: &Vec<Rating>, b: &Vec<Rating>) -> (s: SimScore)
    requires
        score_fits(a@, b@),
    ensures
        s == spec_score(a@, b@),
{
    let a_len = a.len();
    let b_len = b.len();
    let mut dot: i128 = 0;
    let mut sa: i128 = 0;
    let mut sb: i128 = 0;
    let mut i: usize = 0;
    while i < a_len
        invariant
            a_len == a@.len() <= u32::MAX,
            b_len == b@.len() <= u32::MAX,
            i <= a_len,
            dot == dot_sum(a@.take(i as int), b@),
            sa == sum_a(a@.take(i as int), b@),
            sb == sum_b(a@.take(i as int), b@),
            -((i as int) * (b_len as int)) * 0x4000_0000_0000_0000 <= dot
                <= ((i as int) * (b_len as int)) * 0x4000_0000_0000_0000,
            -((i as int) * (b_len as int)) * 0x8000_0000 <= sa
                <= ((i as int) * (b_len as int)) * 0x8000_0000,
            -((i as int) * (b_len as int)) * 0x8000_0000 <= sb
                <= ((i as int) * (b_len as int)) * 0x8000_0000,
        decreases a_len - i,
    {
        let ra = a[i];
        let mut j: usize = 0;
        let ghost dot0 = dot;
        let ghost sa0 = sa;
        let ghost sb0 = sb;
        let ghost cells: int = (i as int) * (b_len as int);
        proof {
            assert(0 <= cells <= 0xffff_fffe_0000_0001) by (nonlinear_arith)
                requires
                    cells == (i as int) * (b_len as int),
                    0 <= i as int <= 0xffff_ffff,
                    0 <= b_len as int <= 0xffff_ffff,
            ;
        }
        while j < b_len
            invariant
                b_len == b@.len() <= u32::MAX,
                j <= b_len,
                0 <= cells <= 0xffff_fffe_0000_0001,
                dot == dot0 + dot_row(ra, b@.take(j as int)),
                sa == sa0 + sum_a_row(ra, b@.take(j as int)),
                sb == sb0 + sum_b_row(ra, b@.take(j as int)),
                -cells * 0x4000_0000_0000_0000 <= dot0 <= cells * 0x4000_0000_0000_0000,
                -cells * 0x8000_0000 <= sa0 <= cells * 0x8000_0000,
                -cells * 0x8000_0000 <= sb0 <= cells * 0x8000_0000,
                -(cells + j as int) * 0x4000_0000_0000_0000 <= dot
                    <= (cells + j as int) * 0x4000_0000_0000_0000,
                -(cells + j as int) * 0x8000_0000 <= sa <= (cells + j as int) * 0x8000_0000,
                -(cells + j as int) * 0x8000_0000 <= sb <= (cells + j as int) * 0x8000_0000,
            decreases b_len - j,
        {
            let rb = b[j];
            if ra.user_id == rb.user_id {
                proof {
                    assert(-0x4000_0000_0000_0000 <= (ra.rating as int) * (rb.rating as int)
                        <= 0x4000_0000_0000_0000) by (nonlinear_arith)
                        requires
                            -0x8000_0000 <= ra.rating as int <= 0x7fff_ffff,
                            -0x8000_0000 <= rb.rating as int <= 0x7fff_ffff,
                    ;
                }
                let prod: i128 = (ra.rating as i128) * (rb.rating as i128);
                dot = dot + prod;
                sa = sa + ra.rating as i128;
                sb = sb + rb.rating as i128;
            }
            proof {
                assert(b@.take(j as int + 1).drop_last() =~= b@.take(j as int));
                assert(b@.take(j as int + 1).last() == b@[j as int]);
            }
            j = j + 1;
        }
        proof {
            assert(b@.take(b_len as int) =~= b@);
            assert(a@.take(i as int + 1).drop_last() =~= a@.take(i as int));
            assert(a@.take(i as int + 1).last() == a@[i as int]);
            assert((i as int + 1) * (b_len as int) == (i as int) * (b_len as int) + b_len as int)
                by (nonlinear_arith);
            assert(((i as int + 1) * (b_len as int)) * 0x4000_0000_0000_0000
                == ((i as int) * (b_len as int)) * 0x4000_0000_0000_0000
                    + (b_len as int) * 0x4000_0000_0000_0000) by (nonlinear_arith);
            assert(((i as int + 1) * (b_len as int)) * 0x8000_0000
                == ((i as int) * (b_len as int)) * 0x8000_0000 + (b_len as int) * 0x8000_0000)
                by (nonlinear_arith);
        }
        i = i + 1;
    }
    proof {
        assert(a@.take(a_len as int) =~= a@);
    }
    if sa > 0 && sb > 0 {
        SimScore::Valid { dot: dot as i64, sum_a: sa as i64, sum_b: sb as i64 }
    } else {
        SimScore::Invalid
    }
}

/// A well-formed score: a valid score has a positive denominator pair,
/// as every score that `score` returns does.
pub open spec fn score_wf(s: SimScore) -> bool {
    s is Valid ==> s->Valid_sum_a > 0 && s->Valid_sum_b > 0
}

pub proof fn lemma_spec_score_wf(a: Seq<Rating>, b: Seq<Rating>)
    requires
        score_fits(a, b),
    ensures
        score_wf(spec_score(a, b)),
{
}

/// The order on valid scores, stated over unbounded integers. With
/// `p = sum_a * sum_b > 0`, the score is `dot / sqrt(p)`, so for equal
/// signs of `dot` the comparison squares the numerators and cross
/// multiplies; for opposite signs the nonnegative side is the larger.
pub open spec fn score_val_ge(x: SimScore, y: SimScore) -> bool
    recommends
        x is Valid,
        y is Valid,
{
    let dx = x->Valid_dot as int;
    let dy = y->Valid_dot as int;
    let px = (x->Valid_sum_a as int) * (x->Valid_sum_b as int);
    let py = (y->Valid_sum_a as int) * (y->Valid_sum_b as int);
    if dx >= 0 && dy < 0 {
        true
    } else if dx < 0 && dy >= 0 {
        false
    } else if dx >= 0 {
        dx * dx * py >= dy * dy * px
    } else {
        dy * dy * px >= dx * dx * py
    }
}

proof fn lemma_frac_cmp(n1: int, p1: int, n2: int, p2: int, q1: int, r1: int, q2: int, r2: int)
    requires
        p1 >= 1,
        p2 >= 1,
        n1 == q1 * p1 + r1,
        0 <= r1 < p1,
        n2 == q2 * p2 + r2,
        0 <= r2 < p2,
    ensures
        q1 > q2 ==> n1 * p2 > n2 * p1,
        q1 < q2 ==> n1 * p2 < n2 * p1,
        q1 == q2 ==> ((n1 * p2 >= n2 * p1) <==> (r1 * p2 >= r2 * p1)),
{
    assert(n1 * p2 == q1 * (p1 * p2) + r1 * p2) by (nonlinear_arith)
        requires
            n1 == q1 * p1 + r1,
    ;
    assert(n2 * p1 == q2 * (p1 * p2) + r2 * p1) by (nonlinear_arith)
        requires
            n2 == q2 * p2 + r2,
    ;
    assert(0 <= r1 * p2 < p1 * p2) by (nonlinear_arith)
        requires
            0 <= r1 < p1,
            p2 >= 1,
    ;
    assert(0 <= r2 * p1 < p1 * p2) by (nonlinear_arith)
        requires
            0 <= r2 < p2,
            p1 >= 1,
    ;
    assert(q1 > q2 ==> q1 * (p1 * p2) >= q2 * (p1 * p2) + p1 * p2) by (nonlinear_arith)
        requires
            p1 * p2 >= 1,
    ;
    assert(q1 < q2 ==> q2 * (p1 * p2) >= q1 * (p1 * p2) + p1 * p2) by (nonlinear_arith)
        requires
            p1 * p2 >= 1,
    ;
}

/// Exact comparison of the fractions `n1 / p1` and `n2 / p2` by
/// quotient and remainder, so the cross products never have to be
/// formed in machine integers.
fn frac_ge(n1: u128, p1: u128, n2: u128, p2: u128) -> (r: bool)
    requires
        p1 >= 1,
        p2 >= 1,
    ensures
        r == (n1 * p2 >= n2 * p1),
    decreases p1 + p2,
{
    let q1 = n1 / p1;
    let r1 = n1 % p1;
    let q2 = n2 / p2;
    let r2 = n2 % p2;
    proof {
        lemma_fundamental_div_mod(n1 as int, p1 as int);
        lemma_mod_bound(n1 as int, p1 as int);
        lemma_fundamental_div_mod(n2 as int, p2 as int);
        lemma_mod_bound(n2 as int, p2 as int);
        lemma_frac_cmp(
            n1 as int,
            p1 as int,
            n2 as int,
            p2 as int,
            q1 as int,
            r1 as int,
            q2 as int,
            r2 as int,
        );
    }
    if q1 != q2 {
        q1 > q2
    } else if r2 == 0 {
        proof {
            assert(r1 as int * p2 as int >= 0) by (nonlinear_arith)
                requires
                    r1 as int >= 0,
                    p2 as int >= 0,
            ;
            assert(r2 as int * p1 as int == 0) by (nonlinear_arith)
                requires
                    r2 as int == 0,
            ;
        }
        true
    } else if r1 == 0 {
        proof {
            assert(r2 as int * p1 as int >= 1) by (nonlinear_arith)
                requires
                    r2 as int >= 1,
                    p1 as int >= 1,
            ;
            assert(r1 as int * p2 as int == 0) by (nonlinear_arith)
                requires
                    r1 as int == 0,
            ;
        }
        false
    } else {
        let rec = frac_ge(p2, r2, p1, r1);
        proof {
            assert(p2 as int * r1 as int == r1 as int * p2 as int) by (nonlinear_arith);
            assert(p1 as int * r2 as int == r2 as int * p1 as int) by (nonlinear_arith);
        }
        rec
    }
}

/// Decides `score_val_ge(*x, *y)`: whether the score `x` is at least
/// the score `y`. Both scores must be valid; the invalid marker is
/// never compared.
pub fn score_ge(x: &SimScore, y: &SimScore) -> (r: bool)
    requires
        x is Valid,
        y is Valid,
        score_wf(*x),
        score_wf(*y),
    ensures
        r == score_val_ge(*x, *y),
{
    match (*x, *y) {
        (
            SimScore::Valid { dot: dx, sum_a: sax, sum_b: sbx },
            SimScore::Valid { dot: dy, sum_a: say, sum_b: sby },
        ) => {
            if dx >= 0 && dy < 0 {
                true
            } else if dx < 0 && dy >= 0 {
                false
            } else {
                proof {
                    assert(0 <= (dx as int) * (dx as int) <= 0x4000_0000_0000_0000_0000_0000_0000_0000)
                        by (nonlinear_arith)
                        requires
                            -0x8000_0000_0000_0000 <= dx as int <= 0x7fff_ffff_ffff_ffff,
                    ;
                    assert(0 <= (dy as int) * (dy as int) <= 0x4000_0000_0000_0000_0000_0000_0000_0000)
                        by (nonlinear_arith)
                        requires
                            -0x8000_0000_0000_0000 <= dy as int <= 0x7fff_ffff_ffff_ffff,
                    ;
                    assert(1 <= (sax as int) * (sbx as int) <= 0x4000_0000_0000_0000_0000_0000_0000_0000)
                        by (nonlinear_arith)
                        requires
                            1 <= sax as int <= 0x7fff_ffff_ffff_ffff,
                            1 <= sbx as int <= 0x7fff_ffff_ffff_ffff,
                    ;
                    assert(1 <= (say as int) * (sby as int) <= 0x4000_0000_0000_0000_0000_0000_0000_0000)
                        by (nonlinear_arith)
                        requires
                            1 <= say as int <= 0x7fff_ffff_ffff_ffff,
                            1 <= sby as int <= 0x7fff_ffff_ffff_ffff,
                    ;
                }
                let nx: u128 = ((dx as i128) * (dx as i128)) as u128;
                let ny: u128 = ((dy as i128) * (dy as i128)) as u128;
                let px: u128 = ((sax as i128) * (sbx as i128)) as u128;
                let py: u128 = ((say as i128) * (sby as i128)) as u128;
                if dx >= 0 {
                    frac_ge(nx, px, ny, py)
                } else {
                    frac_ge(ny, py, nx, px)
                }
            }
        },
        _ => false,
    }
}

proof fn lemma_row_no_match(ra: Rating, b: Seq<Rating>)
    requires
        forall|j: int| 0 <= j < b.len() ==> ra.user_id != (#[trigger] b[j]).user_id,
    ensures
        dot_row(ra, b) == 0,
        sum_a_row(ra, b) == 0,
        sum_b_row(ra, b) == 0,
    decreases b.len(),
{
    if b.len() > 0 {
        assert forall|j: int| 0 <= j < b.drop_last().len() implies ra.user_id != (#[trigger] b.drop_last()[j]).user_id by {
            assert(b.drop_last()[j] == b[j]);
        }
        lemma_row_no_match(ra, b.drop_last());
    }
}

/// With no common rater, every sum over the matched pairs is zero, and
/// the score is the invalid marker.
pub proof fn lemma_no_common_rater(a: Seq<Rating>, b: Seq<Rating>)
    requires
        forall|i: int, j: int|
            0 <= i < a.len() && 0 <= j < b.len() ==> (#[trigger] a[i]).user_id != (
            #[trigger] b[j]).user_id,
    ensures
        dot_sum(a, b) == 0,
        sum_a(a, b) == 0,
        sum_b(a, b) == 0,
        spec_score(a, b) is Invalid,
    decreases a.len(),
{
    if a.len() > 0 {
        assert forall|i: int, j: int|
            0 <= i < a.drop_last().len() && 0 <= j < b.len() implies (#[trigger] a.drop_last()[i]).user_id
            != (#[trigger] b[j]).user_id by {
            assert(a.drop_last()[i] == a[i]);
        }
        lemma_no_common_rater(a.drop_last(), b);
        assert(a.last() == a[a.len() - 1]);
        lemma_row_no_match(a.last(), b);
    }
}

proof fn lemma_row_pos(ra: Rating, b: Seq<Rating>)
    requires
        ra.rating > 0,
        forall|j: int| 0 <= j < b.len() ==> (#[trigger] b[j]).rating > 0,
    ensures
        sum_a_row(ra, b) >= 0,
        sum_b_row(ra, b) >= 0,
        (exists|j: int| 0 <= j < b.len() && (#[trigger] b[j]).user_id == ra.user_id)
            ==> sum_a_row(ra, b) > 0 && sum_b_row(ra, b) > 0,
    decreases b.len(),
{
    if b.len() > 0 {
        assert forall|j: int| 0 <= j < b.drop_last().len() implies (#[trigger] b.drop_last()[j]).rating
            > 0 by {
            assert(b.drop_last()[j] == b[j]);
        }
        lemma_row_pos(ra, b.drop_last());
        if exists|j: int| 0 <= j < b.len() && (#[trigger] b[j]).user_id == ra.user_id {
            let j = choose|j: int| 0 <= j < b.len() && (#[trigger] b[j]).user_id == ra.user_id;
            if j < b.len() - 1 {
                assert(b.drop_last()[j] == b[j]);
                assert(exists|m: int|
                    0 <= m < b.drop_last().len() && (#[trigger] b.drop_last()[m]).user_id
                        == ra.user_id);
            }
        }
    }
}

proof fn lemma_sums_pos(a: Seq<Rating>, b: Seq<Rating>)
    requires
        forall|i: int| 0 <= i < a.len() ==> (#[trigger] a[i]).rating > 0,
        forall|j: int| 0 <= j < b.len() ==> (#[trigger] b[j]).rating > 0,
    ensures
        sum_a(a, b) >= 0,
        sum_b(a, b) >= 0,
        a.len() > 0 && (exists|j: int|
            0 <= j < b.len() && (#[trigger] b[j]).user_id == a.last().user_id) ==> sum_a(a, b) > 0
            && sum_b(a, b) > 0,
    decreases a.len(),
{
    if a.len() > 0 {
        assert forall|i: int| 0 <= i < a.drop_last().len() implies (#[trigger] a.drop_last()[i]).rating
            > 0 by {
            assert(a.drop_last()[i] == a[i]);
        }
        lemma_sums_pos(a.drop_last(), b);
        lemma_row_pos(a.last(), b);
    }
}

/// A movie with at least one rating, all its ratings positive, gets a
/// valid (finite) score against itself: each rating matches itself, so
/// both denominator sums are positive.
pub proof fn lemma_self_score_valid(a: Seq<Rating>)
    requires
        a.len() >= 1,
        forall|i: int| 0 <= i < a.len() ==> (#[trigger] a[i]).rating > 0,
    ensures
        spec_score(a, a) is Valid,
{
    assert(a[a.len() - 1].user_id == a.last().user_id);
    assert(exists|j: int| 0 <= j < a.len() && (#[trigger] a[j]).user_id == a.last().user_id);
    lemma_sums_pos(a, a);
}

/// On valid well-formed scores the order is total.
pub proof fn lemma_score_ge_total(x: SimScore, y: SimScore)
    requires
        x is Valid,
        y is Valid,
        score_wf(x),
        score_wf(y),
    ensures
        score_val_ge(x, y) || score_val_ge(y, x),
{
}

proof fn lemma_prod_trans(a: int, pa: int, b: int, pb: int, c: int, pc: int)
    requires
        a >= 0,
        b >= 0,
        c >= 0,
        pa >= 1,
        pb >= 1,
        pc >= 1,
        a * pb >= b * pa,
        b * pc >= c * pb,
    ensures
        a * pc >= c * pa,
{
    assert((a * pb) * pc >= (b * pa) * pc) by (nonlinear_arith)
        requires
            a * pb >= b * pa,
            pc >= 1,
    ;
    assert((b * pa) * pc == (b * pc) * pa) by (nonlinear_arith);
    assert((b * pc) * pa >= (c * pb) * pa) by (nonlinear_arith)
        requires
            b * pc >= c * pb,
            pa >= 1,
    ;
    assert((a * pb) * pc == (a * pc) * pb) by (nonlinear_arith);
    assert((c * pb) * pa == (c * pa) * pb) by (nonlinear_arith);
    assert((a * pc) * pb >= (c * pa) * pb ==> a * pc >= c * pa) by (nonlinear_arith)
        requires
            pb >= 1,
    ;
}

/// On valid well-formed scores the order is transitive.
pub proof fn lemma_score_ge_trans(x: SimScore, y: SimScore, z: SimScore)
    requires
        x is Valid,
        y is Valid,
        z is Valid,
        score_wf(x),
        score_wf(y),
        score_wf(z),
        score_val_ge(x, y),
        score_val_ge(y, z),
    ensures
        score_val_ge(x, z),
{
    let dx = x->Valid_dot as int;
    let dy = y->Valid_dot as int;
    let dz = z->Valid_dot as int;
    let px = (x->Valid_sum_a as int) * (x->Valid_sum_b as int);
    let py = (y->Valid_sum_a as int) * (y->Valid_sum_b as int);
    let pz = (z->Valid_sum_a as int) * (z->Valid_sum_b as int);
    assert(px >= 1 && py >= 1 && pz >= 1) by (nonlinear_arith)
        requires
            x->Valid_sum_a >= 1,
            x->Valid_sum_b >= 1,
            y->Valid_sum_a >= 1,
            y->Valid_sum_b >= 1,
            z->Valid_sum_a >= 1,
            z->Valid_sum_b >= 1,
            px == (x->Valid_sum_a as int) * (x->Valid_sum_b as int),
            py == (y->Valid_sum_a as int) * (y->Valid_sum_b as int),
            pz == (z->Valid_sum_a as int) * (z->Valid_sum_b as int),
    ;
    assert(dx * dx >= 0 && dy * dy >= 0 && dz * dz >= 0) by (nonlinear_arith);
    if dx >= 0 && dy >= 0 && dz >= 0 {
        lemma_prod_trans(dx * dx, px, dy * dy, py, dz * dz, pz);
    } else if dx < 0 && dy < 0 && dz < 0 {
        lemma_prod_trans(dz * dz, pz, dy * dy, py, dx * dx, px);
    }
}

} // verus!
