//! Cosine similarity, compared exactly.
//!
//! The similarity of two vectors is sim(a, q) = dot(a, q) / (|a| * |q|),
//! with the similarity involving a zero-magnitude vector defined as 0.  The
//! library never computes such a quotient: every decision the search makes
//! only needs to *compare* similarities, and with integer coordinates those
//! comparisons can be decided exactly.
//!
//! A nonzero similarity score is a value n / sqrt(m) with m > 0.  For scores
//! written that way,
//!
//!    n1 / sqrt(m1) > n2 / sqrt(m2)
//!
//! holds iff either n1 >= 0 > n2, or both are nonnegative and
//! n1^2 * m2 > n2^2 * m1, or both are negative and n1^2 * m2 < n2^2 * m1
//! (squaring is strictly monotone on nonnegative reals, and both sides keep
//! their sign when squared against positive denominators).  That integer
//! test is `score_gt`, and all comparison predicates reduce to it.

use crate::dbmodel::{bounded_seq, Vector, COORD_LIMIT, MAX_DIM};
use vstd::prelude::*;

verus! {

/// Dot product of two coordinate sequences (over the common prefix; the
/// library only applies it to sequences of equal length).
pub open spec fn dot(a: Seq<i64>, b: Seq<i64>) -> int
    decreases a.len(),
{
    if a.len() == 0 || b.len() == 0 {
        0
    } else {
        dot(a.drop_last(), b.drop_last()) + (a.last() as int) * (b.last() as int)
    }
}

/// Squared magnitude of a coordinate sequence.
pub open spec fn norm2(a: Seq<i64>) -> int {
    dot(a, a)
}

/// Whether n1 / sqrt(m1) > n2 / sqrt(m2), for m1 > 0 and m2 > 0, decided in
/// integer arithmetic by sign analysis and cross-multiplication of squares.
pub open spec fn score_gt(n1: int, m1: int, n2: int, m2: int) -> bool {
    if n1 >= 0 && n2 < 0 {
        true
    } else if n1 < 0 && n2 >= 0 {
        false
    } else if n1 >= 0 {
        n1 * n1 * m2 > n2 * n2 * m1
    } else {
        n1 * n1 * m2 < n2 * n2 * m1
    }
}

/// Whether `a` is strictly more similar to `q` than `b` is.
///
/// When |q| = 0 both similarities are 0 by definition, so neither vector is
/// strictly more similar.  Otherwise sim(x, q) is dot(x, q) / sqrt(norm2(x)
/// * norm2(q)) for x of nonzero magnitude and exactly 0 = 0 / sqrt(1) for a
/// zero-magnitude x; the comparison divides the common positive factor
/// sqrt(norm2(q)) out of both nonzero denominators, which changes neither
/// side's sign nor the order, and hands the two scores to `score_gt`.
pub open spec fn sim_gt(a: Seq<i64>, b: Seq<i64>, q: Seq<i64>) -> bool {
    if norm2(q) == 0 {
        false
    } else {
        let n1 = if norm2(a) == 0 {
            0
        } else {
            dot(a, q)
        };
        let m1 = if norm2(a) == 0 {
            1
        } else {
            norm2(a)
        };
        let n2 = if norm2(b) == 0 {
            0
        } else {
            dot(b, q)
        };
        let m2 = if norm2(b) == 0 {
            1
        } else {
            norm2(b)
        };
        score_gt(n1, m1, n2, m2)
    }
}

/// Whether a coordinate gap (a nonnegative integer) strictly exceeds the
/// similarity of `b` to `q`.  This is the search's pruning test: the far
/// branch of a node is visited only when it holds.  A similarity that
/// involves a zero-magnitude vector is 0, so the gap exceeds it iff the gap
/// is positive; otherwise the score dot(b, q) / sqrt(norm2(b) * norm2(q)) is
/// compared against gap / sqrt(1).
pub open spec fn gap_gt_sim(gap: int, b: Seq<i64>, q: Seq<i64>) -> bool {
    if norm2(q) == 0 || norm2(b) == 0 {
        gap > 0
    } else {
        score_gt(gap, 1, dot(b, q), norm2(b) * norm2(q))
    }
}

/// Whether the similarity of `a` to `q` is exactly 1, the largest value
/// cosine similarity can take: both magnitudes are nonzero and dot(a, q) =
/// sqrt(norm2(a) * norm2(q)), i.e. the dot product is positive and its
/// square is exactly the product of the squared magnitudes.
pub open spec fn sim_is_one(a: Seq<i64>, q: Seq<i64>) -> bool {
    norm2(a) > 0 && norm2(q) > 0 && dot(a, q) > 0 && dot(a, q) * dot(a, q) == norm2(a) * norm2(q)
}

/// Extending both sequences by one entry adds that entry pair's product to
/// the dot product.
pub proof fn lemma_dot_take_succ(a: Seq<i64>, b: Seq<i64>, i: int)
    requires
        0 <= i < a.len(),
        i < b.len(),
    ensures
        dot(a.take(i + 1), b.take(i + 1)) == dot(a.take(i), b.take(i)) + (a[i] as int) * (
        b[i] as int),
{
    assert(a.take(i + 1).drop_last() =~= a.take(i));
    assert(b.take(i + 1).drop_last() =~= b.take(i));
    assert(a.take(i + 1).last() == a[i]);
    assert(b.take(i + 1).last() == b[i]);
}

/// A squared magnitude is never negative.
pub proof fn lemma_norm2_nonneg(a: Seq<i64>)
    ensures
        norm2(a) >= 0,
    decreases a.len(),
{
    if a.len() == 0 {
    } else {
        assert(norm2(a) == norm2(a.drop_last()) + (a.last() as int) * (a.last() as int));
        lemma_norm2_nonneg(a.drop_last());
        let x = a.last() as int;
        assert(x * x >= 0) by (nonlinear_arith);
    }
}

/// Exact dot product of two equal-length bounded coordinate vectors.
fn dot_i128(a: &Vec<i64>, b: &Vec<i64>) -> (r: i128)
    requires
        a@.len() == b@.len(),
        a@.len() <= MAX_DIM,
        bounded_seq(a@),
        bounded_seq(b@),
    ensures
        r as int == dot(a@, b@),
        -4398046511104 <= r as int <= 4398046511104,
{
    let n = a.len();
    let mut i: usize = 0;
    let mut acc: i128 = 0;
    while i < n
        invariant
            n == a@.len(),
            a@.len() == b@.len(),
            n <= MAX_DIM,
            bounded_seq(a@),
            bounded_seq(b@),
            0 <= i <= n,
            acc as int == dot(a@.take(i as int), b@.take(i as int)),
            -(i as int) * 4294967296 <= acc as int <= (i as int) * 4294967296,
        decreases n - i,
    {
        let x = a[i];
        let y = b[i];
        proof {
            assert(-4294967296 <= (x as int) * (y as int) <= 4294967296) by (nonlinear_arith)
                requires
                    -65536 <= x as int <= 65536,
                    -65536 <= y as int <= 65536,
            ;
            lemma_dot_take_succ(a@, b@, i as int);
        }
        let prod: i128 = (x as i128) * (y as i128);
        acc = acc + prod;
        i = i + 1;
    }
    proof {
        assert(a@.take(n as int) =~= a@);
        assert(b@.take(n as int) =~= b@);
    }
    acc
}

/// Decides whether `a` is strictly more similar to `q` than `b` is, under
/// cosine similarity, exactly.
pub fn more_similar(a: &Vector, b: &Vector, q: &Vector) -> (r: bool)
    requires
        a.wf(),
        b.wf(),
        q.wf(),
        a@.len() == q@.len(),
        b@.len() == q@.len(),
    ensures
        r == sim_gt(a@, b@, q@),
{
    let qq = dot_i128(&q.coordinates, &q.coordinates);
    if qq == 0 {
        return false;
    }
    let aa = dot_i128(&a.coordinates, &a.coordinates);
    let bb = dot_i128(&b.coordinates, &b.coordinates);
    let da = dot_i128(&a.coordinates, &q.coordinates);
    let db = dot_i128(&b.coordinates, &q.coordinates);
    proof {
        lemma_norm2_nonneg(a@);
        lemma_norm2_nonneg(b@);
    }
    let n1: i128 = if aa == 0 {
        0
    } else {
        da
    };
    let m1: i128 = if aa == 0 {
        1
    } else {
        aa
    };
    let n2: i128 = if bb == 0 {
        0
    } else {
        db
    };
    let m2: i128 = if bb == 0 {
        1
    } else {
        bb
    };
    if n1 >= 0 && n2 < 0 {
        true
    } else if n1 < 0 && n2 >= 0 {
        false
    } else {
        proof {
            lemma_score_products_bounded(n1 as int, m1 as int, n2 as int, m2 as int);
        }
        let lhs: i128 = n1 * n1 * m2;
        let rhs: i128 = n2 * n2 * m1;
        if n1 >= 0 {
            lhs > rhs
        } else {
            lhs < rhs
        }
    }
}

/// The cross-multiplied squares that `score_gt` compares stay within i128
/// range for scores built from bounded vectors.
proof fn lemma_score_products_bounded(n1: int, m1: int, n2: int, m2: int)
    requires
        -4398046511104 <= n1 <= 4398046511104,
        0 <= m1 <= 4398046511104,
        -4398046511104 <= n2 <= 4398046511104,
        0 <= m2 <= 4398046511104,
    ensures
        0 <= n1 * n1 <= 19342813113834066795298816,
        0 <= n2 * n2 <= 19342813113834066795298816,
        -85070591730234615865843651857942052864 <= n1 * n1 * m2
            <= 85070591730234615865843651857942052864,
        -85070591730234615865843651857942052864 <= n2 * n2 * m1
            <= 85070591730234615865843651857942052864,
{
    assert(0 <= n1 * n1 <= 19342813113834066795298816) by (nonlinear_arith)
        requires
            -4398046511104 <= n1 <= 4398046511104,
    ;
    assert(0 <= n2 * n2 <= 19342813113834066795298816) by (nonlinear_arith)
        requires
            -4398046511104 <= n2 <= 4398046511104,
    ;
    assert(0 <= n1 * n1 * m2 <= 85070591730234615865843651857942052864) by (nonlinear_arith)
        requires
            0 <= n1 * n1 <= 19342813113834066795298816,
            0 <= m2 <= 4398046511104,
    ;
    assert(0 <= n2 * n2 * m1 <= 85070591730234615865843651857942052864) by (nonlinear_arith)
        requires
            0 <= n2 * n2 <= 19342813113834066795298816,
            0 <= m1 <= 4398046511104,
    ;
}

/// Decides whether a coordinate gap strictly exceeds the similarity of
/// `best` to `q`, exactly.  This is the pruning test of the search.
pub fn gap_exceeds(gap: i64, best: &Vector, q: &Vector) -> (r: bool)
    requires
        0 <= gap <= 2 * COORD_LIMIT,
        best.wf(),
        q.wf(),
        best@.len() == q@.len(),
    ensures
        r == gap_gt_sim(gap as int, best@, q@),
{
    let qq = dot_i128(&q.coordinates, &q.coordinates);
    let bb = dot_i128(&best.coordinates, &best.coordinates);
    proof {
        lemma_norm2_nonneg(best@);
        lemma_norm2_nonneg(q@);
    }
    if qq == 0 || bb == 0 {
        gap > 0
    } else {
        let db = dot_i128(&best.coordinates, &q.coordinates);
        if db < 0 {
            true
        } else {
            let g = gap as i128;
            proof {
                assert(0 <= (bb as int) * (qq as int)
                    <= 19342813113834066795298816) by (nonlinear_arith)
                    requires
                        0 <= bb as int <= 4398046511104,
                        0 <= qq as int <= 4398046511104,
                ;
                assert(0 <= (g as int) * (g as int) <= 17179869184) by (nonlinear_arith)
                    requires
                        0 <= g as int <= 131072,
                ;
                assert(0 <= (g as int) * (g as int) * ((bb as int) * (qq as int))
                    <= 85070591730234615865843651857942052864) by (nonlinear_arith)
                    requires
                        0 <= (g as int) * (g as int) <= 17179869184,
                        0 <= (bb as int) * (qq as int) <= 19342813113834066795298816,
                ;
                assert(0 <= (db as int) * (db as int)
                    <= 19342813113834066795298816) by (nonlinear_arith)
                    requires
                        0 <= db as int <= 4398046511104,
                ;
            }
            g * g * (bb * qq) > db * db
        }
    }
}

/// The score order is transitive: a score at most a second, itself at most
/// a third, is at most the third.
pub proof fn lemma_score_le_trans(n1: int, m1: int, n2: int, m2: int, n3: int, m3: int)
    requires
        m1 > 0,
        m2 > 0,
        m3 > 0,
        !score_gt(n1, m1, n2, m2),
        !score_gt(n2, m2, n3, m3),
    ensures
        !score_gt(n1, m1, n3, m3),
{
    if n1 >= 0 {
        assert(n2 >= 0);
        if n3 >= 0 {
            assert(n1 * n1 * m3 <= n3 * n3 * m1) by (nonlinear_arith)
                requires
                    n1 * n1 * m2 <= n2 * n2 * m1,
                    n2 * n2 * m3 <= n3 * n3 * m2,
                    m1 > 0,
                    m2 > 0,
                    m3 > 0,
            ;
        } else {
            assert(false);
        }
    } else {
        if n3 < 0 {
            if n2 >= 0 {
                assert(false);
            }
            assert(!(n1 * n1 * m3 < n3 * n3 * m1)) by (nonlinear_arith)
                requires
                    !(n1 * n1 * m2 < n2 * n2 * m1),
                    !(n2 * n2 * m3 < n3 * n3 * m2),
                    m1 > 0,
                    m2 > 0,
                    m3 > 0,
            ;
        }
    }
}

/// Cosine similarity never exceeds 1: the square of a dot product is at
/// most the product of the squared magnitudes.
pub proof fn lemma_cauchy_schwarz(a: Seq<i64>, b: Seq<i64>)
    requires
        a.len() == b.len(),
    ensures
        dot(a, b) * dot(a, b) <= norm2(a) * norm2(b),
    decreases a.len(),
{
    if a.len() == 0 {
        assert(dot(a, b) == 0);
    } else {
        let a1 = a.drop_last();
        let b1 = b.drop_last();
        lemma_cauchy_schwarz(a1, b1);
        lemma_norm2_nonneg(a1);
        lemma_norm2_nonneg(b1);
        let d = dot(a1, b1);
        let x = a.last() as int;
        let y = b.last() as int;
        let ca = norm2(a1);
        let cb = norm2(b1);
        assert(dot(a, b) == d + x * y);
        assert(norm2(a) == ca + x * x);
        assert(norm2(b) == cb + y * y);
        let xx = ca * (y * y);
        let yy = cb * (x * x);
        assert(xx >= 0 && yy >= 0) by (nonlinear_arith)
            requires
                ca >= 0,
                cb >= 0,
                xx == ca * (y * y),
                yy == cb * (x * x),
        ;
        assert((xx + yy) * (xx + yy) - 4 * (xx * yy) == (xx - yy) * (xx - yy)) by (nonlinear_arith);
        assert((xx - yy) * (xx - yy) >= 0) by (nonlinear_arith);
        assert((xx + yy) * (xx + yy) >= 4 * (xx * yy));
        assert(xx * yy >= (d * x * y) * (d * x * y)) by (nonlinear_arith)
            requires
                d * d <= ca * cb,
                xx == ca * (y * y),
                yy == cb * (x * x),
                ca >= 0,
                cb >= 0,
        ;
        assert(xx + yy >= 2 * (d * x * y)) by (nonlinear_arith)
            requires
                (xx + yy) * (xx + yy) >= 4 * ((d * x * y) * (d * x * y)),
                xx + yy >= 0,
        ;
        assert((ca + x * x) * (cb + y * y) == ca * cb + xx + yy + (x * x) * (y
            * y)) by (nonlinear_arith)
            requires
                xx == ca * (y * y),
                yy == cb * (x * x),
        ;
        assert((d + x * y) * (d + x * y) == d * d + 2 * (d * x * y) + (x * x) * (y
            * y)) by (nonlinear_arith);
        assert((d + x * y) * (d + x * y) <= (ca + x * x) * (cb + y * y));
    }
}

/// No point is strictly more similar to a query than both another point is
/// to it and it is to the other.
pub proof fn lemma_sim_gt_asym(a: Seq<i64>, b: Seq<i64>, q: Seq<i64>)
    requires
        sim_gt(a, b, q),
    ensures
        !sim_gt(b, a, q),
{
    lemma_norm2_nonneg(a);
    lemma_norm2_nonneg(b);
}

/// The similarity order is transitive: if `a` is not more similar than
/// `b`, and `b` not more similar than `c`, then `a` is not more similar
/// than `c`.
pub proof fn lemma_sim_le_trans(a: Seq<i64>, b: Seq<i64>, c: Seq<i64>, q: Seq<i64>)
    requires
        !sim_gt(a, b, q),
        !sim_gt(b, c, q),
    ensures
        !sim_gt(a, c, q),
{
    lemma_norm2_nonneg(a);
    lemma_norm2_nonneg(b);
    lemma_norm2_nonneg(c);
    if norm2(q) != 0 {
        let n1 = if norm2(a) == 0 { 0 } else { dot(a, q) };
        let m1 = if norm2(a) == 0 { 1 } else { norm2(a) };
        let n2 = if norm2(b) == 0 { 0 } else { dot(b, q) };
        let m2 = if norm2(b) == 0 { 1 } else { norm2(b) };
        let n3 = if norm2(c) == 0 { 0 } else { dot(c, q) };
        let m3 = if norm2(c) == 0 { 1 } else { norm2(c) };
        lemma_score_le_trans(n1, m1, n2, m2, n3, m3);
    }
}

/// A point of similarity 1 to the query is itself most similar to it.
pub proof fn lemma_nothing_beats_one(a: Seq<i64>, b: Seq<i64>, q: Seq<i64>)
    requires
        a.len() == q.len(),
        sim_is_one(b, q),
    ensures
        !sim_gt(a, b, q),
{
    lemma_norm2_nonneg(a);
    let qq = norm2(q);
    let bigb = norm2(b);
    let db = dot(b, q);
    assert(db * db > 0) by (nonlinear_arith)
        requires
            db > 0,
    ;
    if norm2(a) == 0 {
        assert(!(0 * 0 * bigb > db * db * 1)) by (nonlinear_arith)
            requires
                db > 0,
        ;
        assert(!score_gt(0, 1, db, bigb));
    } else {
        let da = dot(a, q);
        let biga = norm2(a);
        if da >= 0 {
            lemma_cauchy_schwarz(a, q);
            assert(!(da * da * bigb > db * db * biga)) by (nonlinear_arith)
                requires
                    da * da <= biga * qq,
                    db * db == bigb * qq,
                    biga > 0,
                    bigb > 0,
                    qq > 0,
            ;
        }
        assert(!score_gt(da, biga, db, bigb));
    }
}

/// A point at least as similar to the query as one of similarity 1 has
/// similarity exactly 1 itself.
pub proof fn lemma_tied_with_one_is_one(b: Seq<i64>, s: Seq<i64>, q: Seq<i64>)
    requires
        s.len() == q.len(),
        sim_is_one(b, q),
        !sim_gt(b, s, q),
    ensures
        sim_is_one(s, q),
{
    lemma_norm2_nonneg(s);
    let qq = norm2(q);
    let bigb = norm2(b);
    let db = dot(b, q);
    if norm2(s) == 0 {
        assert(score_gt(db, bigb, 0, 1)) by (nonlinear_arith)
            requires
                db > 0,
                bigb > 0,
        ;
        assert(false);
    }
    let ds = dot(s, q);
    let bigs = norm2(s);
    if ds < 0 {
        assert(false);
    }
    assert(!(db * db * bigs > ds * ds * bigb));
    lemma_cauchy_schwarz(s, q);
    assert(ds * ds == bigs * qq && ds > 0) by (nonlinear_arith)
        requires
            !(db * db * bigs > ds * ds * bigb),
            db * db == bigb * qq,
            ds * ds <= bigs * qq,
            ds >= 0,
            bigb > 0,
            bigs > 0,
            qq > 0,
    ;
}

/// A point of nonzero magnitude has similarity exactly 1 to itself.
pub proof fn lemma_sim_self(q: Seq<i64>)
    requires
        norm2(q) > 0,
    ensures
        sim_is_one(q, q),
{
}

} // verus!
