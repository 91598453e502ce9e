//! How long contexts last: the length algebra over the context tree.
use crate::compiler::codegen::arena::{copy_row, rows, rows_or_empty};
use crate::compiler::codegen::fraction::Fraction;
use crate::compiler::codegen::state::{
    parent_in, without_ctx,
    after_add, after_add_tempos, cycled, depth_left, is_place, rank, timeline_inserted, timeline_sorted, Column, State, Tables,
};
use crate::compiler::codegen::arena::ctx_key;
use crate::compiler::codegen::{ctx_eq, no_overflow_add, Ctx, Length, Mpb, Scope, Slice};
use vstd::prelude::*;

verus! {

/// A duration as a number: `numer / denom` microseconds, or no duration.
pub enum LenQ {
    Val(int, int),
    Nothing,
}

/// The number a length stands for.
pub open spec fn len_q(l: Length) -> LenQ {
    match l {
        Length::MicroSeconds(f) => LenQ::Val(f.numer as int, f.denom as int),
        Length::Nothing => LenQ::Nothing,
    }
}

/// The number of microseconds, no duration counting as zero.
pub open spec fn q_ratio(q: LenQ) -> (int, int) {
    match q {
        LenQ::Val(n, d) => (n, d),
        LenQ::Nothing => (0, 1),
    }
}

/// The order of durations: by number, and no duration after every duration.
pub open spec fn q_le(a: LenQ, b: LenQ) -> bool {
    match (a, b) {
        (LenQ::Val(n1, d1), LenQ::Val(n2, d2)) => n1 * d2 <= n2 * d1,
        (LenQ::Val(_, _), LenQ::Nothing) => true,
        (LenQ::Nothing, LenQ::Val(_, _)) => false,
        (LenQ::Nothing, LenQ::Nothing) => true,
    }
}

/// The smaller duration; the first on a tie.
pub open spec fn q_min(a: LenQ, b: LenQ) -> LenQ {
    if q_le(a, b) {
        a
    } else {
        b
    }
}

/// The larger duration; the second on a tie.
pub open spec fn q_max(a: LenQ, b: LenQ) -> LenQ {
    if q_le(a, b) {
        b
    } else {
        a
    }
}

/// The sum of two durations, no duration counting as zero; nothing when a
/// denominator is zero.
pub open spec fn q_add(a: LenQ, b: LenQ) -> Option<LenQ> {
    let (n1, d1) = q_ratio(a);
    let (n2, d2) = q_ratio(b);
    if d1 > 0 && d2 > 0 {
        Some(LenQ::Val(n1 * d2 + n2 * d1, d1 * d2))
    } else {
        None
    }
}

/// `l` stands for `q`: the same fraction, or the same number with nonzero
/// denominators.
pub open spec fn stands_for(l: Length, q: LenQ) -> bool {
    match (l, q) {
        (Length::MicroSeconds(f), LenQ::Val(n, d)) => (f.numer == n && f.denom == d) || (f.denom > 0 && d > 0 && f.numer * d == n * f.denom),
        (Length::Nothing, LenQ::Nothing) => true,
        _ => false,
    }
}

/// The largest length of a row, the last on a tie.
pub open spec fn row_max(r: Seq<Length>) -> LenQ
    decreases r.len(),
{
    if r.len() <= 1 {
        if r.len() == 1 { len_q(r[0]) } else { LenQ::Val(0, 1) }
    } else {
        q_max(row_max(r.drop_last()), len_q(r.last()))
    }
}

/// The smallest length of a row, the first on a tie.
pub open spec fn row_min(r: Seq<Length>) -> LenQ
    decreases r.len(),
{
    if r.len() <= 1 {
        if r.len() == 1 { len_q(r[0]) } else { LenQ::Val(0, 1) }
    } else {
        q_min(row_min(r.drop_last()), len_q(r.last()))
    }
}

/// The sum of the largest length of each row; nothing when a row is empty or
/// a sum has a zero denominator.
pub open spec fn rows_max_sum(rs: Seq<Seq<Length>>) -> Option<LenQ>
    decreases rs.len(),
{
    if rs.len() == 0 {
        Some(LenQ::Val(0, 1))
    } else {
        match rows_max_sum(rs.drop_last()) {
            Some(s) => if rs.last().len() == 0 { None } else { q_add(s, row_max(rs.last())) },
            None => None,
        }
    }
}

/// The smallest of the smallest lengths of the rows (zero for an empty row),
/// the first on a tie; zero when there are no rows.
pub open spec fn rows_min(rs: Seq<Seq<Length>>) -> LenQ
    decreases rs.len(),
{
    let row_value = |r: Seq<Length>| if r.len() == 0 { LenQ::Val(0, 1) } else { row_min(r) };
    if rs.len() <= 1 {
        if rs.len() == 1 { row_value(rs[0]) } else { LenQ::Val(0, 1) }
    } else {
        q_min(rows_min(rs.drop_last()), row_value(rs.last()))
    }
}

/// The largest of the largest lengths of the rows (zero for an empty row),
/// the last on a tie; zero when there are no rows.
pub open spec fn rows_max(rs: Seq<Seq<Length>>) -> LenQ
    decreases rs.len(),
{
    let row_value = |r: Seq<Length>| if r.len() == 0 { LenQ::Val(0, 1) } else { row_max(r) };
    if rs.len() <= 1 {
        if rs.len() == 1 { row_value(rs[0]) } else { LenQ::Val(0, 1) }
    } else {
        q_max(rows_max(rs.drop_last()), row_value(rs.last()))
    }
}

/// Comparing what stands for two numbers compares the numbers.
proof fn lemma_stands_le(a: Length, qa: LenQ, b: Length, qb: LenQ)
    requires
        stands_for(a, qa),
        stands_for(b, qb),
    ensures
        a.spec_ord_le(b) == q_le(qa, qb),
{
    match (a, qa, b, qb) {
        (Length::MicroSeconds(f), LenQ::Val(n1, d1), Length::MicroSeconds(g), LenQ::Val(n2, d2)) => {
            let fn_ = f.numer as int;
            let fd = f.denom as int;
            let gn = g.numer as int;
            let gd = g.denom as int;
            lemma_cross_le(fn_, fd, n1, d1, gn, gd, n2, d2);
        },
        _ => {},
    }
}

/// Cross-multiplied order is kept by equal fractions with positive
/// denominators.
proof fn lemma_cross_le(fn_: int, fd: int, n1: int, d1: int, gn: int, gd: int, n2: int, d2: int)
    requires
        fn_ >= 0,
        fd >= 0,
        gn >= 0,
        gd >= 0,
        (fn_ == n1 && fd == d1) || (fd > 0 && d1 > 0 && fn_ * d1 == n1 * fd),
        (gn == n2 && gd == d2) || (gd > 0 && d2 > 0 && gn * d2 == n2 * gd),
    ensures
        (fn_ * gd <= gn * fd) == (n1 * d2 <= n2 * d1),
{
    if fn_ == n1 && fd == d1 && gn == n2 && gd == d2 {
    } else if fn_ == n1 && fd == d1 {
        // gd > 0, d2 > 0
        if d1 == 0 {
            assert(fn_ * gd <= gn * fd <==> fn_ == 0) by (nonlinear_arith)
                requires fd == 0, gd > 0, fn_ >= 0;
            assert(n1 * d2 <= n2 * d1 <==> n1 == 0) by (nonlinear_arith)
                requires d1 == 0, d2 > 0, n1 >= 0, n1 == fn_;
        } else {
            lemma_scale_le(fn_ * gd, gn * fd, d2);
            assert(gn * fd * d2 == n2 * gd * d1) by (nonlinear_arith)
                requires gn * d2 == n2 * gd, fd == d1;
            assert(fn_ * gd * d2 == n1 * d2 * gd) by (nonlinear_arith)
                requires fn_ == n1;
            assert(n2 * gd * d1 == n2 * d1 * gd) by (nonlinear_arith);
            lemma_scale_le(n1 * d2, n2 * d1, gd);
        }
    } else if gn == n2 && gd == d2 {
        if d2 == 0 {
            assert(fn_ * gd <= gn * fd <==> true) by (nonlinear_arith)
                requires gd == 0, fd > 0, gn >= 0;
            assert(n1 * d2 <= n2 * d1 <==> true) by (nonlinear_arith)
                requires d2 == 0, d1 > 0, n2 >= 0, n2 == gn;
        } else {
            lemma_scale_le(fn_ * gd, gn * fd, d1);
            assert(fn_ * gd * d1 == n1 * fd * d2) by (nonlinear_arith)
                requires fn_ * d1 == n1 * fd, gd == d2;
            assert(gn * fd * d1 == n2 * d1 * fd) by (nonlinear_arith)
                requires gn == n2;
            assert(n1 * fd * d2 == n1 * d2 * fd) by (nonlinear_arith);
            lemma_scale_le(n1 * d2, n2 * d1, fd);
        }
    } else {
        assert(d1 * d2 > 0) by (nonlinear_arith)
            requires d1 > 0, d2 > 0;
        lemma_scale_le(fn_ * gd, gn * fd, d1 * d2);
        assert(fn_ * gd * (d1 * d2) == (n1 * d2) * (fd * gd)) by (nonlinear_arith)
            requires fn_ * d1 == n1 * fd;
        assert(gn * fd * (d1 * d2) == (n2 * d1) * (fd * gd)) by (nonlinear_arith)
            requires gn * d2 == n2 * gd;
        assert(d1 * d2 > 0) by (nonlinear_arith)
            requires d1 > 0, d2 > 0;
        assert(fd * gd > 0) by (nonlinear_arith)
            requires fd > 0, gd > 0;
        lemma_scale_le(n1 * d2, n2 * d1, fd * gd);
    }
}

/// Scaling by a positive number keeps the order.
proof fn lemma_scale_le(x: int, y: int, k: int)
    requires
        k > 0,
    ensures
        (x <= y) == (x * k <= y * k),
{
    assert((x <= y) == (x * k <= y * k)) by (nonlinear_arith)
        requires k > 0;
}

/// The sum of what stands for two numbers stands for the sum of the numbers.
proof fn lemma_stands_add(fa: Fraction, fb: Fraction, r: Fraction, n1: int, d1: int, n2: int, d2: int)
    requires
        fa.denom > 0,
        fb.denom > 0,
        r.denom > 0,
        (fa.numer == n1 && fa.denom == d1) || (d1 > 0 && fa.numer * d1 == n1 * fa.denom),
        (fb.numer == n2 && fb.denom == d2) || (d2 > 0 && fb.numer * d2 == n2 * fb.denom),
        r.is_sum_of(fa, fb),
    ensures
        d1 * d2 > 0,
        r.numer * (d1 * d2) == (n1 * d2 + n2 * d1) * r.denom,
{
    let an = fa.numer as int;
    let ad = fa.denom as int;
    let bn = fb.numer as int;
    let bd = fb.denom as int;
    let rn = r.numer as int;
    let rd = r.denom as int;
    assert(d1 > 0 && d2 > 0);
    assert(d1 * d2 > 0) by (nonlinear_arith)
        requires d1 > 0, d2 > 0;
    assert(ad * bd > 0) by (nonlinear_arith)
        requires ad > 0, bd > 0;
    assert(an * d1 == n1 * ad);
    assert(bn * d2 == n2 * bd);
    vstd::arithmetic::mul::lemma_mul_is_distributive_add_other_way(d1 * d2, an * bd, bn * ad);
    lemma_swap4(an, bd, d1, d2);
    lemma_swap4(bn, ad, d2, d1);
    assert(d2 * d1 == d1 * d2) by (nonlinear_arith);
    assert((an * d1) * (bd * d2) == (n1 * ad) * (bd * d2));
    assert((bn * d2) * (ad * d1) == (n2 * bd) * (ad * d1));
    lemma_swap4(n1, ad, bd, d2);
    lemma_swap4(n2, bd, ad, d1);
    assert(bd * ad == ad * bd) by (nonlinear_arith);
    assert((n1 * bd) * (ad * d2) == (ad * bd) * (n1 * d2)) by {
        lemma_swap4(ad, bd, n1, d2);
        assert((ad * n1) * (bd * d2) == (n1 * ad) * (bd * d2)) by (nonlinear_arith);
        lemma_swap4(n1, ad, bd, d2);
    };
    assert((n2 * ad) * (bd * d1) == (ad * bd) * (n2 * d1)) by {
        lemma_swap4(ad, bd, n2, d1);
        lemma_swap4(n2, bd, ad, d1);
        assert((n2 * bd) * (ad * d1) == (n2 * ad) * (bd * d1)) by {
            lemma_swap4(n2, ad, bd, d1);
        };
        assert((ad * n2) * (bd * d1) == (n2 * ad) * (bd * d1)) by (nonlinear_arith);
    };
    vstd::arithmetic::mul::lemma_mul_is_distributive_add(ad * bd, n1 * d2, n2 * d1);
    assert(rn * (ad * bd) == (an * bd + bn * ad) * rd);
    let s_ = an * bd + bn * ad;
    let t_ = n1 * d2 + n2 * d1;
    let k = ad * bd;
    let e = d1 * d2;
    assert(s_ * e == k * t_);
    assert(rn * k == s_ * rd);
    lemma_assoc3(rn, e, k);
    lemma_assoc3(rn, k, e);
    assert((rn * e) * k == (rn * k) * e) by (nonlinear_arith);
    assert((s_ * rd) * e == (s_ * e) * rd) by (nonlinear_arith);
    assert((k * t_) * rd == (t_ * rd) * k) by (nonlinear_arith);
    lemma_cancel(rn * e, t_ * rd, k);
}

/// `(a * b) * (c * d) == (a * c) * (b * d)`.
proof fn lemma_swap4(a: int, b: int, c: int, d: int)
    ensures
        (a * b) * (c * d) == (a * c) * (b * d),
{
    assert((a * b) * (c * d) == (a * c) * (b * d)) by (nonlinear_arith);
}

/// `(a * b) * c == (a * c) * b`.
proof fn lemma_assoc3(a: int, b: int, c: int)
    ensures
        (a * b) * c == (a * c) * b,
{
    assert((a * b) * c == (a * c) * b) by (nonlinear_arith);
}

/// A positive factor cancels.
proof fn lemma_cancel(x: int, y: int, k: int)
    requires
        k > 0,
        x * k == y * k,
    ensures
        x == y,
{
    assert(x == y) by (nonlinear_arith)
        requires k > 0, x * k == y * k;
}

/// The numerator and denominator of `l` are at most those of `q`.
pub open spec fn bounded_by(l: Length, q: LenQ) -> bool {
    l.spec_ratio().numer <= q_ratio(q).0 && l.spec_ratio().denom <= q_ratio(q).1
}

/// The numerator and denominator of `q` fit in a `u64`.
pub open spec fn q_fits(q: LenQ) -> bool {
    q_ratio(q).0 <= u64::MAX && q_ratio(q).1 <= u64::MAX
}

/// Adding fractions no larger than `(n1, d1)` and `(n2, d2)` gives one no
/// larger than their unreduced sum, and does not overflow where that sum fits.
proof fn lemma_add_bounded(fa: Fraction, fb: Fraction, n1: int, d1: int, n2: int, d2: int)
    requires
        fa.denom > 0,
        fb.denom > 0,
        fa.numer <= n1,
        fa.denom <= d1,
        fb.numer <= n2,
        fb.denom <= d2,
    ensures
        fa.numer * fb.denom + fb.numer * fa.denom <= n1 * d2 + n2 * d1,
        fa.denom * fb.denom <= d1 * d2,
{
    assert(fa.numer * fb.denom <= n1 * d2) by (nonlinear_arith)
        requires fa.numer <= n1, fb.denom <= d2, fa.numer >= 0, fb.denom >= 0;
    assert(fb.numer * fa.denom <= n2 * d1) by (nonlinear_arith)
        requires fb.numer <= n2, fa.denom <= d1, fb.numer >= 0, fa.denom >= 0;
    assert(fa.denom * fb.denom <= d1 * d2) by (nonlinear_arith)
        requires fa.denom <= d1, fb.denom <= d2, fa.denom >= 0, fb.denom >= 0;
}

/// A reduced sum is no larger than the unreduced one.
proof fn lemma_sum_numer_bound(fa: Fraction, fb: Fraction, l: Fraction)
    requires
        fa.denom > 0,
        fb.denom > 0,
        l.is_sum_of(fa, fb),
        0 < l.denom <= fa.denom * fb.denom,
    ensures
        l.numer <= fa.numer * fb.denom + fb.numer * fa.denom,
{
    let s = fa.numer * fb.denom + fb.numer * fa.denom;
    let p = fa.denom * fb.denom;
    assert(l.numer * p == s * l.denom);
    assert(l.numer <= s) by (nonlinear_arith)
        requires l.numer * p == s * l.denom, 0 < l.denom <= p, s >= 0, l.numer >= 0;
}

/// The sum of two lengths, no length counting as zero; `None` when a
/// denominator is zero or the sum does not fit.
pub fn add_lengths(a: &Length, b: &Length) -> (r: Option<Length>)
    ensures
        r matches Some(l) ==> l is MicroSeconds && l.wf(),
        forall|qa: LenQ, qb: LenQ|
            stands_for(*a, qa) && stands_for(*b, qb) && r is Some ==> (q_add(qa, qb) matches Some(q) && stands_for(r->0, q)),
        forall|qa: LenQ, qb: LenQ|
            stands_for(*a, qa) && stands_for(*b, qb) && q_add(qa, qb) is None ==> r is None,
        forall|qa: LenQ, qb: LenQ|
            #![trigger q_add(qa, qb), bounded_by(*a, qa), bounded_by(*b, qb)]
            stands_for(*a, qa) && stands_for(*b, qb) && bounded_by(*a, qa) && bounded_by(*b, qb) && q_add(qa, qb) is Some ==> {
                &&& r matches Some(l) ==> bounded_by(l, q_add(qa, qb)->0)
                &&& q_fits(q_add(qa, qb)->0) ==> r is Some
            },
{
    let fa = a.as_ratio();
    let fb = b.as_ratio();
    if fa.denom == 0 || fb.denom == 0 {
        return None;
    }
    let r = a.checked_add(b);
    proof {
        if let Some(l) = r {
            assert forall|qa: LenQ, qb: LenQ| stands_for(*a, qa) && stands_for(*b, qb) implies (q_add(qa, qb) matches Some(q) && stands_for(l, q)) by {
                let (n1, d1) = q_ratio(qa);
                let (n2, d2) = q_ratio(qb);
                lemma_stands_add(fa, fb, l.spec_ratio(), n1, d1, n2, d2);
            }
        }
        assert forall|qa: LenQ, qb: LenQ|
            #![trigger q_add(qa, qb), bounded_by(*a, qa), bounded_by(*b, qb)]
            stands_for(*a, qa) && stands_for(*b, qb) && bounded_by(*a, qa) && bounded_by(*b, qb) && q_add(qa, qb) is Some implies {
                &&& r matches Some(l) ==> bounded_by(l, q_add(qa, qb)->0)
                &&& q_fits(q_add(qa, qb)->0) ==> r is Some
            } by {
            let (n1, d1) = q_ratio(qa);
            let (n2, d2) = q_ratio(qb);
            lemma_add_bounded(fa, fb, n1, d1, n2, d2);
            if let Some(l) = r {
                lemma_sum_numer_bound(fa, fb, l.spec_ratio());
            }
        }
    }
    r
}

/// The largest length of a nonempty row, the last on a tie.
pub fn row_max_of(r: &Vec<Length>) -> (m: Length)
    requires
        r@.len() > 0,
    ensures
        len_q(m) == row_max(r@),
{
    let mut m = r[0];
    let mut i: usize = 1;
    proof {
        assert(r@.take(1).drop_last() =~= Seq::<Length>::empty());
    }
    while i < r.len()
        invariant
            1 <= i <= r@.len(),
            len_q(m) == row_max(r@.take(i as int)),
        decreases r@.len() - i,
    {
        proof {
            assert(r@.take(i + 1).drop_last() =~= r@.take(i as int));
        }
        if m.ord_le(&r[i]) {
            m = r[i];
        }
        i = i + 1;
    }
    proof {
        assert(r@.take(r@.len() as int) =~= r@);
    }
    m
}

/// The smallest length of a nonempty row, the first on a tie.
pub fn row_min_of(r: &Vec<Length>) -> (m: Length)
    requires
        r@.len() > 0,
    ensures
        len_q(m) == row_min(r@),
{
    let mut m = r[0];
    let mut i: usize = 1;
    proof {
        assert(r@.take(1).drop_last() =~= Seq::<Length>::empty());
    }
    while i < r.len()
        invariant
            1 <= i <= r@.len(),
            len_q(m) == row_min(r@.take(i as int)),
        decreases r@.len() - i,
    {
        proof {
            assert(r@.take(i + 1).drop_last() =~= r@.take(i as int));
        }
        if !m.ord_le(&r[i]) {
            m = r[i];
        }
        i = i + 1;
    }
    proof {
        assert(r@.take(r@.len() as int) =~= r@);
    }
    m
}

/// The numerator of a duration is not negative.
pub open spec fn q_nonneg(q: LenQ) -> bool {
    q_ratio(q).0 >= 0
}

/// Every length of a row has a numerator that is not negative, and so has
/// the largest.
proof fn lemma_row_max_nonneg(r: Seq<Length>)
    ensures
        q_nonneg(row_max(r)),
    decreases r.len(),
{
    if r.len() > 1 {
        lemma_row_max_nonneg(r.drop_last());
    }
}

/// Adding a duration to `a` gives numbers no smaller than those of `a`.
proof fn lemma_q_add_grows(a: LenQ, b: LenQ)
    requires
        q_nonneg(a),
        q_nonneg(b),
        q_add(a, b) is Some,
    ensures
        q_nonneg(q_add(a, b)->0),
        q_ratio(a).0 <= q_ratio(q_add(a, b)->0).0,
        q_ratio(a).1 <= q_ratio(q_add(a, b)->0).1,
        q_ratio(b).0 <= q_ratio(q_add(a, b)->0).0,
        q_ratio(b).1 <= q_ratio(q_add(a, b)->0).1,
{
    let (n1, d1) = q_ratio(a);
    let (n2, d2) = q_ratio(b);
    assert(n1 * d2 + n2 * d1 >= n1) by (nonlinear_arith)
        requires n1 >= 0, n2 >= 0, d1 > 0, d2 > 0;
    assert(n1 * d2 + n2 * d1 >= n2) by (nonlinear_arith)
        requires n1 >= 0, n2 >= 0, d1 > 0, d2 > 0;
    assert(d1 * d2 >= d1) by (nonlinear_arith)
        requires d1 > 0, d2 > 0;
    assert(d1 * d2 >= d2) by (nonlinear_arith)
        requires d1 > 0, d2 > 0;
}

/// The sum over a prefix of the rows has numbers no larger than the sum over
/// all of them, and numerators that are not negative.
proof fn lemma_max_sum_prefix(rs: Seq<Seq<Length>>, k: int)
    requires
        0 <= k <= rs.len(),
        rows_max_sum(rs) is Some,
    ensures
        rows_max_sum(rs.take(k)) is Some,
        q_nonneg(rows_max_sum(rs.take(k))->0),
        q_ratio(rows_max_sum(rs.take(k))->0).0 <= q_ratio(rows_max_sum(rs)->0).0,
        q_ratio(rows_max_sum(rs.take(k))->0).1 <= q_ratio(rows_max_sum(rs)->0).1,
    decreases rs.len() - k,
{
    if k == rs.len() {
        assert(rs.take(k) =~= rs);
        lemma_max_sum_nonneg(rs);
    } else {
        lemma_max_sum_prefix(rs, k + 1);
        let t = rs.take(k + 1);
        assert(t.drop_last() =~= rs.take(k));
        lemma_max_sum_nonneg(rs.take(k));
        lemma_row_max_nonneg(t.last());
        lemma_q_add_grows(rows_max_sum(rs.take(k))->0, row_max(t.last()));
    }
}

/// The sum of the rows has a numerator that is not negative.
proof fn lemma_max_sum_nonneg(rs: Seq<Seq<Length>>)
    ensures
        rows_max_sum(rs) matches Some(q) ==> q_nonneg(q),
    decreases rs.len(),
{
    if rs.len() > 0 {
        lemma_max_sum_nonneg(rs.drop_last());
        lemma_row_max_nonneg(rs.last());
        if let Some(s) = rows_max_sum(rs.drop_last()) {
            if rs.last().len() > 0 && q_add(s, row_max(rs.last())) is Some {
                lemma_q_add_grows(s, row_max(rs.last()));
            }
        }
    }
}

/// The sum of the largest length of each row; `None` when a row is empty or
/// a sum does not fit.
pub fn rows_max_sum_of(rs: &Vec<Vec<Length>>) -> (r: Option<Length>)
    ensures
        r matches Some(l) ==> (rows_max_sum(rows(*rs)) matches Some(q) && stands_for(l, q) && bounded_by(l, q)),
        rows_max_sum(rows(*rs)) is None ==> r is None,
        rows_max_sum(rows(*rs)) matches Some(q) && q_fits(q) ==> r is Some,
{
    let mut sum = Length::default();
    let mut i: usize = 0;
    proof {
        assert(rows(*rs).take(0) =~= Seq::<Seq<Length>>::empty());
    }
    while i < rs.len()
        invariant
            i <= rs@.len(),
            rows(*rs).len() == rs@.len(),
            rows_max_sum(rows(*rs).take(i as int)) matches Some(q) && stands_for(sum, q) && bounded_by(sum, q),
        decreases rs@.len() - i,
    {
        let ghost acc = rows_max_sum(rows(*rs).take(i as int))->0;
        proof {
            assert(rows(*rs).take(i + 1).drop_last() =~= rows(*rs).take(i as int));
            assert(rows(*rs).take(i + 1).last() == rs@[i as int]@);
        }
        if rs[i].len() == 0 {
            proof {
                lemma_max_sum_none_after(rows(*rs), i as int + 1);
            }
            return None;
        }
        let m = row_max_of(&rs[i]);
        proof {
            assert(stands_for(m, len_q(m)));
            assert(bounded_by(m, len_q(m)));
        }
        match add_lengths(&sum, &m) {
            Some(s2) => {
                proof {
                    let q2 = q_add(acc, len_q(m))->0;
                    assert(bounded_by(s2, q2));
                }
                sum = s2;
            },
            None => {
                proof {
                    lemma_max_sum_none_after(rows(*rs), i as int + 1);
                    if rows_max_sum(rows(*rs)) is Some {
                        lemma_max_sum_prefix(rows(*rs), i as int + 1);
                        assert(q_add(acc, len_q(m)) is Some);
                    }
                }
                return None;
            },
        }
        i = i + 1;
    }
    proof {
        assert(rows(*rs).take(rs@.len() as int) =~= rows(*rs));
    }
    Some(sum)
}

/// Once the sum of a prefix is nothing, so is the sum of the whole.
proof fn lemma_max_sum_none_after(rs: Seq<Seq<Length>>, k: int)
    requires
        0 <= k <= rs.len(),
    ensures
        rows_max_sum(rs.take(k)) is None ==> rows_max_sum(rs) is None,
    decreases rs.len() - k,
{
    if k < rs.len() {
        assert(rs.take(k + 1).drop_last() =~= rs.take(k));
        lemma_max_sum_none_after(rs, k + 1);
    } else {
        assert(rs.take(k) =~= rs);
    }
}

/// The smallest of the smallest lengths of the rows (zero for an empty row),
/// the first on a tie; zero when there are no rows.
pub fn rows_min_of(rs: &Vec<Vec<Length>>) -> (m: Length)
    ensures
        len_q(m) == rows_min(rows(*rs)),
{
    if rs.len() == 0 {
        return Length::default();
    }
    let mut m = if rs[0].len() == 0 { Length::default() } else { row_min_of(&rs[0]) };
    let mut i: usize = 1;
    proof {
        assert(rows(*rs).take(1).drop_last() =~= Seq::<Seq<Length>>::empty());
        assert(rows(*rs).take(1)[0] == rs@[0]@);
    }
    while i < rs.len()
        invariant
            1 <= i <= rs@.len(),
            rows(*rs).len() == rs@.len(),
            len_q(m) == rows_min(rows(*rs).take(i as int)),
        decreases rs@.len() - i,
    {
        proof {
            assert(rows(*rs).take(i + 1).drop_last() =~= rows(*rs).take(i as int));
            assert(rows(*rs).take(i + 1).last() == rs@[i as int]@);
        }
        let v = if rs[i].len() == 0 { Length::default() } else { row_min_of(&rs[i]) };
        if !m.ord_le(&v) {
            m = v;
        }
        i = i + 1;
    }
    proof {
        assert(rows(*rs).take(rs@.len() as int) =~= rows(*rs));
    }
    m
}

/// The largest of the largest lengths of the rows (zero for an empty row),
/// the last on a tie; zero when there are no rows.
pub fn rows_max_of(rs: &Vec<Vec<Length>>) -> (m: Length)
    ensures
        len_q(m) == rows_max(rows(*rs)),
{
    if rs.len() == 0 {
        return Length::default();
    }
    let mut m = if rs[0].len() == 0 { Length::default() } else { row_max_of(&rs[0]) };
    let mut i: usize = 1;
    proof {
        assert(rows(*rs).take(1).drop_last() =~= Seq::<Seq<Length>>::empty());
        assert(rows(*rs).take(1)[0] == rs@[0]@);
    }
    while i < rs.len()
        invariant
            1 <= i <= rs@.len(),
            rows(*rs).len() == rs@.len(),
            len_q(m) == rows_max(rows(*rs).take(i as int)),
        decreases rs@.len() - i,
    {
        proof {
            assert(rows(*rs).take(i + 1).drop_last() =~= rows(*rs).take(i as int));
            assert(rows(*rs).take(i + 1).last() == rs@[i as int]@);
        }
        let v = if rs[i].len() == 0 { Length::default() } else { row_max_of(&rs[i]) };
        if m.ord_le(&v) {
            m = v;
        }
        i = i + 1;
    }
    proof {
        assert(rows(*rs).take(rs@.len() as int) =~= rows(*rs));
    }
    m
}

/// The total length of `c`: the sum over its children, or over its rows of
/// their largest length.
pub open spec fn sum_len(s: State, c: Ctx) -> Option<LenQ>
    decreases depth_left(c), 1int, 0int,
{
    let ch = s.children_of(c);
    if ch.len() > 0 {
        sum_len_list(s, c, ch)
    } else {
        rows_max_sum(rows_or_empty(s.spec_lengths(), c))
    }
}

/// The total length of the contexts `l`, children of `p`.
pub open spec fn sum_len_list(s: State, p: Ctx, l: Seq<Ctx>) -> Option<LenQ>
    decreases depth_left(p), 0int, l.len(),
{
    if l.len() == 0 {
        Some(LenQ::Val(0, 1))
    } else {
        match sum_len_list(s, p, l.drop_last()) {
            Some(a) => if rank(l.last()) > rank(p) {
                match sum_len(s, l.last()) {
                    Some(b) => q_add(a, b),
                    None => None,
                }
            } else {
                None
            },
            None => None,
        }
    }
}

/// Once the total of a prefix of children is nothing, so is the total of all.
proof fn lemma_sum_list_none_after(s: State, p: Ctx, l: Seq<Ctx>, k: int)
    requires
        0 <= k <= l.len(),
    ensures
        sum_len_list(s, p, l.take(k)) is None ==> sum_len_list(s, p, l) is None,
    decreases l.len() - k,
{
    if k < l.len() {
        assert(l.take(k + 1).drop_last() =~= l.take(k));
        lemma_sum_list_none_after(s, p, l, k + 1);
    } else {
        assert(l.take(k) =~= l);
    }
}

/// The length of `c` the way `get_ctx_length` finds it. Of the children, the
/// first decides by its scope whether the second is summed or measured by
/// `min_len`; the rest are added (sequence) or compared (stack) by the scope
/// of `c`. A leaf sums (sequence) or measures (stack) its own rows; a leaf
/// without scope takes the length of the root. `ups` is how many times the
/// search may still climb back towards the root; beyond that it would not
/// end, and the result is nothing.
pub open spec fn ctx_len(s: State, c: Ctx, ups: nat) -> Option<LenQ>
    decreases ups, depth_left(c), 2int, 0int,
{
    let ch = s.children_of(c);
    if ch.len() > 0 {
        let second = if ch.len() > 1 { ch[1] } else { Ctx::Nothing };
        let init = match s.scope_of(ch[0]) {
            Scope::Sequence => sum_len(s, second),
            Scope::Stack => if rank(second) > rank(c) {
                min_len(s, second, ups)
            } else if ups > 0 {
                min_len(s, second, (ups - 1) as nat)
            } else {
                None
            },
            _ => None,
        };
        match init {
            Some(i) => len_fold(s, c, if ch.len() > 2 { ch.skip(2) } else { Seq::empty() }, ups, i),
            None => None,
        }
    } else {
        match s.scope_of(c) {
            Scope::Sequence => sum_len(s, c),
            Scope::Stack => min_len(s, c, ups),
            Scope::Nothing => if ups > 0 {
                ctx_len(s, Ctx::Root, (ups - 1) as nat)
            } else {
                None
            },
            Scope::Unordered => None,
        }
    }
}

/// The length that `min_length` finds: the length of the last child, once
/// every child has one, or the smallest length of the rows of a leaf.
pub open spec fn min_len(s: State, c: Ctx, ups: nat) -> Option<LenQ>
    decreases ups, depth_left(c), 1int, 0int,
{
    let ch = s.children_of(c);
    if ch.len() > 0 {
        min_len_list(s, c, ch, ups)
    } else {
        Some(rows_min(rows_or_empty(s.spec_lengths(), c)))
    }
}

/// The length of the last of the contexts `l`, children of `p`, once every
/// one of them has a length; zero for no contexts.
pub open spec fn min_len_list(s: State, p: Ctx, l: Seq<Ctx>, ups: nat) -> Option<LenQ>
    decreases ups, depth_left(p), 0int, l.len(),
{
    if l.len() == 0 {
        Some(LenQ::Val(0, 1))
    } else {
        match min_len_list(s, p, l.drop_last(), ups) {
            Some(_) => if rank(l.last()) > rank(p) {
                ctx_len(s, l.last(), ups)
            } else {
                None
            },
            None => None,
        }
    }
}

/// `init` combined with the lengths of the children `l` of `c` by the scope
/// of `c`: added for a sequence, the smallest for a stack, no duration for no
/// scope.
pub open spec fn len_fold(s: State, c: Ctx, l: Seq<Ctx>, ups: nat, init: LenQ) -> Option<LenQ>
    decreases ups, depth_left(c), 0int, l.len(),
{
    if l.len() == 0 {
        Some(init)
    } else {
        match len_fold(s, c, l.drop_last(), ups, init) {
            Some(total) => match s.scope_of(c) {
                Scope::Sequence => if rank(l.last()) > rank(c) {
                    match ctx_len(s, l.last(), ups) {
                        Some(x) => q_add(total, x),
                        None => None,
                    }
                } else {
                    None
                },
                Scope::Stack => if rank(l.last()) > rank(c) {
                    match ctx_len(s, l.last(), ups) {
                        Some(x) => Some(q_min(total, x)),
                        None => None,
                    }
                } else {
                    None
                },
                Scope::Nothing => Some(LenQ::Nothing),
                Scope::Unordered => None,
            },
            None => None,
        }
    }
}

/// Every sum that finding the length of `c` as `ctx_len` describes makes
/// fits in a `u64`, numerator and denominator, unreduced.
pub open spec fn ctx_len_fits(s: State, c: Ctx, ups: nat) -> bool
    decreases ups, depth_left(c), 2int, 0int,
{
    let ch = s.children_of(c);
    if ch.len() > 0 {
        let second = if ch.len() > 1 { ch[1] } else { Ctx::Nothing };
        let init_fits = match s.scope_of(ch[0]) {
            Scope::Sequence => sum_len(s, second) matches Some(q) ==> q_fits(q),
            Scope::Stack => if rank(second) > rank(c) {
                min_len_fits(s, second, ups)
            } else if ups > 0 {
                min_len_fits(s, second, (ups - 1) as nat)
            } else {
                true
            },
            _ => true,
        };
        let init = match s.scope_of(ch[0]) {
            Scope::Sequence => sum_len(s, second),
            Scope::Stack => if rank(second) > rank(c) {
                min_len(s, second, ups)
            } else if ups > 0 {
                min_len(s, second, (ups - 1) as nat)
            } else {
                None
            },
            _ => None,
        };
        &&& init_fits
        &&& match init {
            Some(i) => fold_fits(s, c, if ch.len() > 2 { ch.skip(2) } else { Seq::empty() }, ups, i),
            None => true,
        }
    } else {
        match s.scope_of(c) {
            Scope::Sequence => sum_len(s, c) matches Some(q) ==> q_fits(q),
            Scope::Stack => min_len_fits(s, c, ups),
            Scope::Nothing => ups > 0 ==> ctx_len_fits(s, Ctx::Root, (ups - 1) as nat),
            Scope::Unordered => true,
        }
    }
}

/// Every sum that `min_len` makes for `c` fits.
pub open spec fn min_len_fits(s: State, c: Ctx, ups: nat) -> bool
    decreases ups, depth_left(c), 1int, 0int,
{
    let ch = s.children_of(c);
    if ch.len() > 0 {
        min_list_fits(s, c, ch, ups)
    } else {
        true
    }
}

/// Every sum that `min_len_list` makes for the children `l` of `p` fits.
pub open spec fn min_list_fits(s: State, p: Ctx, l: Seq<Ctx>, ups: nat) -> bool
    decreases ups, depth_left(p), 0int, l.len(),
{
    if l.len() == 0 {
        true
    } else {
        &&& min_list_fits(s, p, l.drop_last(), ups)
        &&& (min_len_list(s, p, l.drop_last(), ups) is Some && rank(l.last()) > rank(p)) ==> ctx_len_fits(s, l.last(), ups)
    }
}

/// Every sum that `len_fold` makes fits.
pub open spec fn fold_fits(s: State, c: Ctx, l: Seq<Ctx>, ups: nat, init: LenQ) -> bool
    decreases ups, depth_left(c), 0int, l.len(),
{
    if l.len() == 0 {
        true
    } else {
        &&& fold_fits(s, c, l.drop_last(), ups, init)
        &&& match len_fold(s, c, l.drop_last(), ups, init) {
            Some(total) => if rank(l.last()) > rank(c) {
                match s.scope_of(c) {
                    Scope::Sequence => {
                        &&& ctx_len_fits(s, l.last(), ups)
                        &&& ctx_len(s, l.last(), ups) matches Some(x) ==> (q_add(total, x) matches Some(q) ==> q_fits(q))
                    },
                    Scope::Stack => ctx_len_fits(s, l.last(), ups),
                    _ => true,
                }
            } else {
                true
            },
            None => true,
        }
    }
}

/// How many times a search from `c` may climb back to the root.
pub open spec fn climbs(c: Ctx) -> nat {
    if ctx_eq(c, Ctx::Root) { 0 } else { 1 }
}

/// The total length of a context has a numerator that is not negative.
proof fn lemma_sum_len_nonneg(s: State, c: Ctx)
    ensures
        sum_len(s, c) matches Some(q) ==> q_nonneg(q),
    decreases depth_left(c), 1int, 0int,
{
    let ch = s.children_of(c);
    if ch.len() > 0 {
        lemma_sum_list_nonneg(s, c, ch);
    } else {
        lemma_max_sum_nonneg(rows_or_empty(s.spec_lengths(), c));
    }
}

/// The total length of children has a numerator that is not negative.
proof fn lemma_sum_list_nonneg(s: State, p: Ctx, l: Seq<Ctx>)
    ensures
        sum_len_list(s, p, l) matches Some(q) ==> q_nonneg(q),
    decreases depth_left(p), 0int, l.len(),
{
    if l.len() > 0 {
        lemma_sum_list_nonneg(s, p, l.drop_last());
        if rank(l.last()) > rank(p) {
            lemma_sum_len_nonneg(s, l.last());
            if let Some(a) = sum_len_list(s, p, l.drop_last()) {
                if let Some(b) = sum_len(s, l.last()) {
                    if q_add(a, b) is Some {
                        lemma_q_add_grows(a, b);
                    }
                }
            }
        }
    }
}

/// The total of a prefix of children, and the length of each child, have
/// numbers no larger than the total of all of them.
proof fn lemma_sum_list_prefix(s: State, p: Ctx, l: Seq<Ctx>, k: int)
    requires
        0 <= k <= l.len(),
        sum_len_list(s, p, l) is Some,
    ensures
        sum_len_list(s, p, l.take(k)) is Some,
        q_ratio(sum_len_list(s, p, l.take(k))->0).0 <= q_ratio(sum_len_list(s, p, l)->0).0,
        q_ratio(sum_len_list(s, p, l.take(k))->0).1 <= q_ratio(sum_len_list(s, p, l)->0).1,
        k < l.len() ==> sum_len(s, l[k]) is Some && q_ratio(sum_len(s, l[k])->0).0 <= q_ratio(sum_len_list(s, p, l)->0).0
            && q_ratio(sum_len(s, l[k])->0).1 <= q_ratio(sum_len_list(s, p, l)->0).1,
    decreases l.len() - k,
{
    if k == l.len() {
        assert(l.take(k) =~= l);
    } else {
        lemma_sum_list_prefix(s, p, l, k + 1);
        let t = l.take(k + 1);
        assert(t.drop_last() =~= l.take(k));
        assert(t.last() == l[k]);
        lemma_sum_list_nonneg(s, p, l.take(k));
        lemma_sum_len_nonneg(s, l[k]);
        lemma_q_add_grows(sum_len_list(s, p, l.take(k))->0, sum_len(s, l[k])->0);
    }
}

/// Every row of lengths of `c`, or of the contexts below it, has a length.
pub open spec fn lengths_filled(s: State, c: Ctx) -> bool
    decreases depth_left(c),
{
    let ch = s.children_of(c);
    if ch.len() > 0 {
        forall|i: int| 0 <= i < ch.len() && rank(ch[i]) > rank(c) ==> #[trigger] lengths_filled(s, ch[i])
    } else {
        forall|j: int|
            0 <= j < rows_or_empty(s.spec_lengths(), c).len() ==> #[trigger] rows_or_empty(s.spec_lengths(), c)[j].len() > 0
    }
}

impl State {
    /// The total length of `ctx`: the sum over its children, or over its rows
    /// of their largest length; `None` when a sum does not fit. Every row
    /// must have a length: an empty one has no largest.
    pub fn length_sum(&self, ctx: Ctx) -> (r: Option<Length>)
        requires
            self.wf(),
            lengths_filled(*self, ctx),
        ensures
            r matches Some(l) ==> (sum_len(*self, ctx) matches Some(q) && stands_for(l, q) && bounded_by(l, q)),
            sum_len(*self, ctx) is None ==> r is None,
            sum_len(*self, ctx) matches Some(q) && q_fits(q) ==> r is Some,
    {
        self.sum_of_lengths(ctx)
    }

    /// The total length of `ctx` as `sum_len` describes it; `None` when a row
    /// is empty or a sum does not fit.
    fn sum_of_lengths(&self, ctx: Ctx) -> (r: Option<Length>)
        requires
            self.wf(),
        ensures
            r matches Some(l) ==> (sum_len(*self, ctx) matches Some(q) && stands_for(l, q) && bounded_by(l, q)),
            sum_len(*self, ctx) is None ==> r is None,
            sum_len(*self, ctx) matches Some(q) && q_fits(q) ==> r is Some,
        decreases depth_left(ctx),
    {
        let ch = self.children(ctx);
        if ch.len() > 0 {
            let mut sum = Length::default();
            let mut i: usize = 0;
            proof {
                assert(ch@.take(0) =~= Seq::<Ctx>::empty());
            }
            while i < ch.len()
                invariant
                    self.wf(),
                    i <= ch@.len(),
                    ch@ == self.children_of(ctx),
                    forall|j: int| 0 <= j < ch@.len() ==> rank(#[trigger] ch@[j]) > rank(ctx),
                    sum_len_list(*self, ctx, ch@.take(i as int)) matches Some(q) && stands_for(sum, q) && bounded_by(sum, q),
                decreases ch@.len() - i,
            {
                proof {
                    assert(ch@.take(i + 1).drop_last() =~= ch@.take(i as int));
                    assert(ch@.take(i + 1).last() == ch@[i as int]);
                }
                let ghost acc = sum_len_list(*self, ctx, ch@.take(i as int))->0;
                let x = self.sum_of_lengths(ch[i]);
                match x {
                    Some(x) => {
                        match add_lengths(&sum, &x) {
                            Some(s2) => {
                                proof {
                                    let q2 = q_add(acc, sum_len(*self, ch@[i as int])->0)->0;
                                    assert(bounded_by(s2, q2));
                                }
                                sum = s2;
                            },
                            None => {
                                proof {
                                    lemma_sum_list_none_after(*self, ctx, ch@, i + 1);
                                    if sum_len_list(*self, ctx, ch@) is Some {
                                        lemma_sum_list_prefix(*self, ctx, ch@, i + 1);
                                    }
                                }
                                return None;
                            },
                        }
                    },
                    None => {
                        proof {
                            lemma_sum_list_none_after(*self, ctx, ch@, i + 1);
                            if sum_len_list(*self, ctx, ch@) is Some {
                                lemma_sum_list_prefix(*self, ctx, ch@, i as int);
                            }
                        }
                        return None;
                    },
                }
                i = i + 1;
            }
            proof {
                assert(ch@.take(ch@.len() as int) =~= ch@);
            }
            Some(sum)
        } else {
            match self.lengths(ctx) {
                Some(rs) => rows_max_sum_of(&rs),
                None => {
                    let e: Vec<Vec<Length>> = Vec::new();
                    proof {
                        assert(rows(e) =~= rows_or_empty(self.spec_lengths(), ctx));
                    }
                    rows_max_sum_of(&e)
                },
            }
        }
    }

    /// The largest length of the rows of `ctx` itself (zero for an empty row),
    /// the last on a tie; zero when it has no rows.
    pub fn max_length(&self, ctx: Ctx) -> (r: Length)
        requires
            self.wf(),
        ensures
            len_q(r) == rows_max(rows_or_empty(self.spec_lengths(), ctx)),
    {
        match self.lengths(ctx) {
            Some(rs) => rows_max_of(&rs),
            None => {
                let e: Vec<Vec<Length>> = Vec::new();
                proof {
                    assert(rows(e) =~= rows_or_empty(self.spec_lengths(), ctx));
                }
                rows_max_of(&e)
            },
        }
    }
}

/// Once a prefix folds to nothing, so does the whole.
proof fn lemma_fold_none_after(s: State, c: Ctx, l: Seq<Ctx>, ups: nat, init: LenQ, k: int)
    requires
        0 <= k <= l.len(),
    ensures
        len_fold(s, c, l.take(k), ups, init) is None ==> len_fold(s, c, l, ups, init) is None,
    decreases l.len() - k,
{
    if k < l.len() {
        assert(l.take(k + 1).drop_last() =~= l.take(k));
        lemma_fold_none_after(s, c, l, ups, init, k + 1);
    } else {
        assert(l.take(k) =~= l);
    }
}

/// Once a prefix of children has no length, neither has the list.
proof fn lemma_min_list_none_after(s: State, p: Ctx, l: Seq<Ctx>, ups: nat, k: int)
    requires
        0 <= k <= l.len(),
    ensures
        min_len_list(s, p, l.take(k), ups) is None ==> min_len_list(s, p, l, ups) is None,
    decreases l.len() - k,
{
    if k < l.len() {
        assert(l.take(k + 1).drop_last() =~= l.take(k));
        lemma_min_list_none_after(s, p, l, ups, k + 1);
    } else {
        assert(l.take(k) =~= l);
    }
}

/// What fits for all the children fits for a prefix of them.
proof fn lemma_fold_fits_prefix(s: State, c: Ctx, l: Seq<Ctx>, ups: nat, init: LenQ, k: int)
    requires
        0 <= k <= l.len(),
        fold_fits(s, c, l, ups, init),
    ensures
        fold_fits(s, c, l.take(k), ups, init),
    decreases l.len() - k,
{
    if k < l.len() {
        lemma_fold_fits_prefix(s, c, l, ups, init, k + 1);
        assert(l.take(k + 1).drop_last() =~= l.take(k));
    } else {
        assert(l.take(k) =~= l);
    }
}

/// What fits for all the children fits for a prefix of them.
proof fn lemma_min_list_fits_prefix(s: State, p: Ctx, l: Seq<Ctx>, ups: nat, k: int)
    requires
        0 <= k <= l.len(),
        min_list_fits(s, p, l, ups),
    ensures
        min_list_fits(s, p, l.take(k), ups),
    decreases l.len() - k,
{
    if k < l.len() {
        lemma_min_list_fits_prefix(s, p, l, ups, k + 1);
        assert(l.take(k + 1).drop_last() =~= l.take(k));
    } else {
        assert(l.take(k) =~= l);
    }
}

/// A length stands for, and is bounded by, its own numbers.
proof fn lemma_own_bound(l: Length)
    ensures
        bounded_by(l, len_q(l)),
{
}

impl State {
    fn ctx_len_(&self, c: Ctx, ups: u8) -> (r: Option<Length>)
        requires
            self.wf(),
        ensures
            r matches Some(l) ==> (ctx_len(*self, c, ups as nat) matches Some(q) && stands_for(l, q) && bounded_by(l, q)),
            ctx_len(*self, c, ups as nat) is None ==> r is None,
            ctx_len(*self, c, ups as nat) is Some && ctx_len_fits(*self, c, ups as nat) ==> r is Some,
        decreases ups, depth_left(c), 2int, 0int,
    {
        let ch = self.children(c);
        if ch.len() > 0 {
            let second = if ch.len() > 1 { ch[1] } else { Ctx::Nothing };
            let init = match self.scope(ch[0]) {
                Scope::Sequence => self.sum_of_lengths(second),
                Scope::Stack => {
                    if ch.len() > 1 {
                        self.min_len_(second, ups)
                    } else if ups > 0 {
                        self.min_len_(second, ups - 1)
                    } else {
                        None
                    }
                },
                _ => None,
            };
            let ghost sinit = match self.scope_of(ch@[0]) {
                Scope::Sequence => sum_len(*self, second),
                Scope::Stack => if rank(second) > rank(c) {
                    min_len(*self, second, ups as nat)
                } else if ups > 0 {
                    min_len(*self, second, (ups - 1) as nat)
                } else {
                    None
                },
                _ => None,
            };
            proof {
                if ch.len() <= 1 {
                    assert(rank(second) == 0);
                }
                assert(init matches Some(l) ==> (sinit matches Some(q) && stands_for(l, q) && bounded_by(l, q)));
                assert(sinit is None ==> init is None);
            }
            match init {
                Some(i) => {
                    let ghost iq = sinit->0;
                    let ghost rest = if ch@.len() > 2 { ch@.skip(2) } else { Seq::<Ctx>::empty() };
                    let mut total = i;
                    let mut k: usize = 2;
                    let scope = self.scope(c);
                    proof {
                        assert(rest.take(0) =~= Seq::<Ctx>::empty());
                        assert(ctx_len(*self, c, ups as nat) == len_fold(*self, c, rest, ups as nat, iq));
                    }
                    while k < ch.len()
                        invariant
                            self.wf(),
                            2 <= k,
                            k <= ch@.len() || ch@.len() <= 2,
                            ch@ == self.children_of(c),
                            forall|j: int| 0 <= j < ch@.len() ==> rank(#[trigger] ch@[j]) > rank(c),
                            scope == self.scope_of(c),
                            rest == (if ch@.len() > 2 { ch@.skip(2) } else { Seq::<Ctx>::empty() }),
                            ch@.len() > 2 ==> (len_fold(*self, c, rest.take(k - 2), ups as nat, iq) matches Some(q) && stands_for(total, q) && bounded_by(total, q)),
                            ch@.len() <= 2 ==> stands_for(total, iq) && bounded_by(total, iq),
                            ctx_len_fits(*self, c, ups as nat) ==> fold_fits(*self, c, rest, ups as nat, iq),
                            ctx_len(*self, c, ups as nat) == len_fold(*self, c, rest, ups as nat, iq),
                        decreases ch@.len() - k,
                    {
                        let ghost kk = k - 2;
                        proof {
                            assert(rest.take(kk + 1).drop_last() =~= rest.take(kk));
                            assert(rest.take(kk + 1).last() == ch@[k as int]);
                        }
                        proof {
                            if ctx_len_fits(*self, c, ups as nat) {
                                lemma_fold_fits_prefix(*self, c, rest, ups as nat, iq, kk + 1);
                            }
                        }
                        match scope {
                            Scope::Sequence => {
                                match self.ctx_len_(ch[k], ups) {
                                    Some(x) => match add_lengths(&total, &x) {
                                        Some(t2) => {
                                            proof {
                                                let qt = len_fold(*self, c, rest.take(kk), ups as nat, iq)->0;
                                                let qx = ctx_len(*self, ch@[k as int], ups as nat)->0;
                                                assert(bounded_by(t2, q_add(qt, qx)->0));
                                            }
                                            total = t2;
                                        },
                                        None => {
                                            proof { lemma_fold_none_after(*self, c, rest, ups as nat, iq, kk + 1); }
                                            return None;
                                        },
                                    },
                                    None => {
                                        proof { lemma_fold_none_after(*self, c, rest, ups as nat, iq, kk + 1); }
                                        return None;
                                    },
                                }
                            },
                            Scope::Stack => {
                                match self.ctx_len_(ch[k], ups) {
                                    Some(x) => {
                                        proof {
                                            let qt = len_fold(*self, c, rest.take(kk), ups as nat, iq)->0;
                                            let qx = ctx_len(*self, ch@[k as int], ups as nat)->0;
                                            lemma_stands_le(total, qt, x, qx);
                                        }
                                        if !total.ord_le(&x) {
                                            total = x;
                                        }
                                    },
                                    None => {
                                        proof { lemma_fold_none_after(*self, c, rest, ups as nat, iq, kk + 1); }
                                        return None;
                                    },
                                }
                            },
                            Scope::Nothing => {
                                total = Length::Nothing;
                                proof { lemma_own_bound(total); }
                            },
                            Scope::Unordered => {
                                proof { lemma_fold_none_after(*self, c, rest, ups as nat, iq, kk + 1); }
                                return None;
                            },
                        }
                        k = k + 1;
                    }
                    proof {
                        if ch@.len() > 2 {
                            assert(rest.take(rest.len() as int) =~= rest);
                        } else {
                            assert(rest =~= Seq::<Ctx>::empty());
                        }
                    }
                    Some(total)
                },
                None => None,
            }
        } else {
            match self.scope(c) {
                Scope::Sequence => self.sum_of_lengths(c),
                Scope::Stack => self.min_len_(c, ups),
                Scope::Nothing => {
                    if ups > 0 {
                        self.ctx_len_(Ctx::Root, ups - 1)
                    } else {
                        None
                    }
                },
                Scope::Unordered => None,
            }
        }
    }

    fn min_len_(&self, c: Ctx, ups: u8) -> (r: Option<Length>)
        requires
            self.wf(),
        ensures
            r matches Some(l) ==> (min_len(*self, c, ups as nat) matches Some(q) && stands_for(l, q) && bounded_by(l, q)),
            min_len(*self, c, ups as nat) is None ==> r is None,
            min_len(*self, c, ups as nat) is Some && min_len_fits(*self, c, ups as nat) ==> r is Some,
        decreases ups, depth_left(c), 1int, 0int,
    {
        let ch = self.children(c);
        if ch.len() > 0 {
            let mut last = Length::default();
            let mut i: usize = 0;
            proof {
                assert(ch@.take(0) =~= Seq::<Ctx>::empty());
            }
            while i < ch.len()
                invariant
                    self.wf(),
                    i <= ch@.len(),
                    ch@ == self.children_of(c),
                    forall|j: int| 0 <= j < ch@.len() ==> rank(#[trigger] ch@[j]) > rank(c),
                    min_len_list(*self, c, ch@.take(i as int), ups as nat) matches Some(q) && stands_for(last, q) && bounded_by(last, q),
                decreases ch@.len() - i,
            {
                proof {
                    assert(ch@.take(i + 1).drop_last() =~= ch@.take(i as int));
                    assert(ch@.take(i + 1).last() == ch@[i as int]);
                }
                match self.ctx_len_(ch[i], ups) {
                    Some(x) => {
                        last = x;
                    },
                    None => {
                        proof {
                            lemma_min_list_none_after(*self, c, ch@, ups as nat, i + 1);
                            if min_len_fits(*self, c, ups as nat) {
                                lemma_min_list_fits_prefix(*self, c, ch@, ups as nat, i + 1);
                            }
                        }
                        return None;
                    },
                }
                i = i + 1;
            }
            proof {
                assert(ch@.take(ch@.len() as int) =~= ch@);
            }
            Some(last)
        } else {
            let m = match self.lengths(c) {
                Some(rs) => rows_min_of(&rs),
                None => {
                    let e: Vec<Vec<Length>> = Vec::new();
                    proof {
                        assert(rows(e) =~= rows_or_empty(self.spec_lengths(), c));
                    }
                    rows_min_of(&e)
                },
            };
            proof {
                match m {
                    Length::MicroSeconds(f) => {},
                    Length::Nothing => {},
                }
                lemma_own_bound(m);
            }
            Some(m)
        }
    }

    /// The length of `ctx` as `ctx_len` describes it; `None` where that has
    /// none, or when a sum does not fit.
    pub fn get_ctx_length(&self, ctx: Ctx) -> (r: Option<Length>)
        requires
            self.wf(),
        ensures
            r matches Some(l) ==> (ctx_len(*self, ctx, climbs(ctx)) matches Some(q) && stands_for(l, q) && bounded_by(l, q)),
            ctx_len(*self, ctx, climbs(ctx)) is None ==> r is None,
            ctx_len(*self, ctx, climbs(ctx)) is Some && ctx_len_fits(*self, ctx, climbs(ctx)) ==> r is Some,
    {
        let ups: u8 = if ctx == Ctx::Root { 0 } else { 1 };
        self.ctx_len_(ctx, ups)
    }

    /// The length of the last child of `ctx`, once every child has one, or
    /// the smallest length of the rows of `ctx`; `None` where `min_len` has
    /// none, or when a sum does not fit.
    pub fn min_length(&self, ctx: Ctx) -> (r: Option<Length>)
        requires
            self.wf(),
        ensures
            r matches Some(l) ==> (min_len(*self, ctx, 1) matches Some(q) && stands_for(l, q) && bounded_by(l, q)),
            min_len(*self, ctx, 1) is None ==> r is None,
            min_len(*self, ctx, 1) is Some && min_len_fits(*self, ctx, 1) ==> r is Some,
    {
        self.min_len_(ctx, 1)
    }
}

/// `a <= b` comparing numbers of microseconds, no duration as zero.
pub open spec fn q_value_le(a: LenQ, b: LenQ) -> bool {
    let (n1, d1) = q_ratio(a);
    let (n2, d2) = q_ratio(b);
    n1 * d2 <= n2 * d1
}

/// Comparing numbers of microseconds of what stands for two numbers compares
/// the numbers.
proof fn lemma_stands_value_le(a: Length, qa: LenQ, b: Length, qb: LenQ)
    requires
        stands_for(a, qa),
        stands_for(b, qb),
    ensures
        a.spec_ratio().spec_le(b.spec_ratio()) == q_value_le(qa, qb),
{
    let fa = a.spec_ratio();
    let fb = b.spec_ratio();
    let (n1, d1) = q_ratio(qa);
    let (n2, d2) = q_ratio(qb);
    lemma_cross_le(fa.numer as int, fa.denom as int, n1, d1, fb.numer as int, fb.denom as int, n2, d2);
}

/// Row `j` of `rs`, going round; no values when there are no rows.
pub open spec fn round_row<T>(rs: Seq<Seq<T>>, j: int) -> Seq<T> {
    if rs.len() == 0 {
        Seq::empty()
    } else {
        rs[j % (rs.len() as int)]
    }
}

/// The tables after round `j` of `cycle_fill` on a context without children:
/// the next row of each parameter of `src`, added the way `add` adds it.
pub open spec fn round_applied(t: Tables, c: Ctx, scope: Scope, src: Tables, j: int) -> Tables {
    Tables {
        lengths: after_add(t.lengths, c, round_row(rows_or_empty(src.lengths, c), j), scope),
        programs: after_add(t.programs, c, round_row(rows_or_empty(src.programs, c), j), scope),
        registers: after_add(t.registers, c, round_row(rows_or_empty(src.registers, c), j), scope),
        pcs: after_add(t.pcs, c, round_row(rows_or_empty(src.pcs, c), j), scope),
        velocities: after_add(t.velocities, c, round_row(rows_or_empty(src.velocities, c), j), scope),
        tempos: after_add_tempos(t.tempos, c, round_row(rows_or_empty(src.tempos, c), j), scope),
    }
}

/// The tables after `k` rounds of `cycle_fill` on a context without children.
pub open spec fn rounds_applied(t: Tables, c: Ctx, scope: Scope, k: nat) -> Tables
    decreases k,
{
    if k == 0 {
        t
    } else {
        round_applied(rounds_applied(t, c, scope, (k - 1) as nat), c, scope, t, k - 1)
    }
}

impl State {
    /// Repeats the content of `ctx` until it is as long as `len`: a context
    /// with children lists its children again, in turn, while its length is
    /// at most `len`; a context without children adds its rows again, in
    /// turn, while its length is below `len`. Returns whether it stopped
    /// because the length was reached; it stops with `false` when the length
    /// cannot be found (see `get_ctx_length`) or after `u64::MAX` rounds,
    /// and so stops with `true` whenever fewer rounds reach the length and
    /// the length can be found before each of them.
    pub fn cycle_fill(&mut self, ctx: Ctx, len: Length) -> (r: bool)
        requires
            old(self).wf(),
            old(self).children_of(ctx).len() > 0 || old(self).scope_of(ctx) == Scope::Sequence
                || old(self).scope_of(ctx) == Scope::Stack,
        ensures
            final(self).wf(),
            old(self).children_of(ctx).len() > 0 ==> {
                &&& exists|k: nat| final(self).spec_children() == old(self).spec_children().insert(
                    ctx_key(ctx),
                    old(self).children_of(ctx) + cycled(old(self).children_of(ctx), k as int),
                )
                &&& exists|hist: Seq<State>| #[trigger] short_child_rounds(*old(self), *final(self), ctx, len, hist)
                &&& final(self).spec_tables() == old(self).spec_tables()
                &&& r ==> (ctx_len(*final(self), ctx, climbs(ctx)) matches Some(q) && !q_value_le(q, len_q(len)))
                &&& !r ==> !length_known(*final(self), ctx) || final(self).spec_children() == old(self).spec_children().insert(
                    ctx_key(ctx),
                    old(self).children_of(ctx) + cycled(old(self).children_of(ctx), u64::MAX as int),
                )
            },
            old(self).children_of(ctx).len() == 0 ==> {
                &&& exists|k: nat| final(self).spec_tables() == rounds_applied(old(self).spec_tables(), ctx, old(self).scope_of(ctx), k)
                &&& exists|hist: Seq<State>| #[trigger] short_rounds(*old(self), *final(self), ctx, len, hist)
                &&& final(self).spec_children() == old(self).spec_children()
                &&& r ==> (ctx_len(*final(self), ctx, climbs(ctx)) matches Some(q) && q_value_le(len_q(len), q))
                &&& !r ==> !length_known(*final(self), ctx) || final(self).spec_tables() == rounds_applied(
                    old(self).spec_tables(),
                    ctx,
                    old(self).scope_of(ctx),
                    u64::MAX as nat,
                )
            },
            final(self).spec_parents() == old(self).spec_parents(),
            final(self).spec_ctx_count() == old(self).spec_ctx_count(),
            final(self).spec_ctxs() == old(self).spec_ctxs(),
            final(self).spec_scopes() == old(self).spec_scopes(),
            final(self).spec_layers() == old(self).spec_layers(),
            final(self).same_reader(old(self)),
            final(self).same_rest(old(self)),
            old(self).children_of(ctx).len() > 0 && (exists|k: nat| k < u64::MAX && #[trigger] child_rounds_reach(*old(self), ctx, len, k as int)) ==> r,
            old(self).children_of(ctx).len() == 0 && (exists|k: nat| k < u64::MAX && #[trigger] rounds_reach(*old(self), ctx, len, k as int)) ==> r,
            old(self).children_of(ctx).len() == 0 && ctx_len_fits(*old(self), ctx, climbs(ctx)) && (ctx_len(
                *old(self),
                ctx,
                climbs(ctx),
            ) matches Some(q) && q_value_le(len_q(len), q)) ==> r && *final(self) == *old(self),
    {
        let ch = self.children(ctx);
        let ghost o = *self;
        let ghost immediate = o.children_of(ctx).len() == 0 && ctx_len_fits(o, ctx, climbs(ctx)) && (ctx_len(o, ctx, climbs(ctx)) matches Some(
            q,
        ) && q_value_le(len_q(len), q));
        let mut j: u64 = 0;
        let mut guard: u64 = u64::MAX;
        let mut reached = false;
        let mut failed = false;
        if ch.len() > 0 {
            proof {
                assert(o.children_of(ctx) + cycled(o.children_of(ctx), 0) =~= o.children_of(ctx));
                assert(o.spec_children().insert(ctx_key(ctx), o.children_of(ctx)) =~= o.spec_children());
            }
            let ghost mut hist: Seq<State> = Seq::empty();
            while !reached && !failed && guard > 0
                invariant
                    self.wf(),
                    hist.len() == j,
                    short_child_rounds(o, *self, ctx, len, hist),
                    ch@ == o.children_of(ctx),
                    ch@.len() > 0,
                    forall|i: int| 0 <= i < ch@.len() ==> rank(#[trigger] ch@[i]) > rank(ctx),
                    j as int + guard as int <= u64::MAX as int,
                    self.spec_children() == o.spec_children().insert(ctx_key(ctx), o.children_of(ctx) + cycled(o.children_of(ctx), j as int)),
                    self.spec_tables() == o.spec_tables(),
                    self.spec_parents() == o.spec_parents(),
                    self.spec_ctx_count() == o.spec_ctx_count(),
                    self.spec_ctxs() == o.spec_ctxs(),
                    self.spec_scopes() == o.spec_scopes(),
                    self.spec_layers() == o.spec_layers(),
                    self.same_reader(&o),
                    self.same_rest(&o),
                    reached ==> (ctx_len(*self, ctx, climbs(ctx)) matches Some(q) && !q_value_le(q, len_q(len))),
                    failed ==> !length_known(*self, ctx),
                    !reached && !failed ==> j as int + guard as int == u64::MAX as int,
                decreases guard,
            {
                match self.get_ctx_length(ctx) {
                    None => {
                        failed = true;
                    },
                    Some(l) => {
                        proof {
                            let q = ctx_len(*self, ctx, climbs(ctx))->0;
                            lemma_stands_value_le(l, q, len, len_q(len));
                        }
                        if l.value_le(&len) {
                            let ghost h0 = hist;
                            proof {
                                assert(child_round_short(o, *self, ctx, len, j as int));
                                hist = hist.push(*self);
                            }
                            let idx = (j % (ch.len() as u64)) as usize;
                            let c = ch[idx];
                            let ghost before = self.spec_children();
                            proof {
                                assert(before.contains_key(ctx_key(ctx)));
                            }
                            self.add_child(ctx, c);
                            proof {
                                assert(o.children_of(ctx) + cycled(o.children_of(ctx), j + 1) =~= (o.children_of(ctx) + cycled(o.children_of(ctx), j as int)).push(c));
                                assert forall|i: int| 0 <= i < hist.len() implies #[trigger] child_round_short(o, hist[i], ctx, len, i) by {
                                    if i < h0.len() {
                                        assert(hist[i] == h0[i]);
                                    }
                                }
                                assert(self.spec_children() =~= o.spec_children().insert(ctx_key(ctx), o.children_of(ctx) + cycled(o.children_of(ctx), hist.len() as int)));
                            }
                            j = j + 1;
                        } else {
                            reached = true;
                        }
                    },
                }
                guard = guard - 1;
            }
            proof {
                if !reached && exists|k: nat| k < u64::MAX && #[trigger] child_rounds_reach(o, ctx, len, k as int) {
                    let k = choose|k: nat| k < u64::MAX && #[trigger] child_rounds_reach(o, ctx, len, k as int);
                    if failed && j <= k {
                        assert(child_round_state(o, *self, ctx, j as int));
                    } else {
                        assert(child_round_short(o, hist[k as int], ctx, len, k as int));
                        assert(child_round_state(o, hist[k as int], ctx, k as int));
                    }
                }
            }
        } else {
            let ghost scope = self.scope_of(ctx);
            let lens = copy_rows_or_empty(self.lengths(ctx));
            let progs = copy_rows_or_empty(self.programs(ctx));
            let regs = copy_rows_or_empty(self.registers(ctx));
            let pcs = copy_rows_or_empty(self.pcs(ctx));
            let vels = copy_rows_or_empty(self.velocities(ctx));
            let temps = copy_rows_or_empty(self.tempos(ctx));
            let ghost mut hist: Seq<State> = Seq::empty();
            proof {
                assert(rounds_applied(o.spec_tables(), ctx, scope, 0) == o.spec_tables());
            }
            while !reached && !failed && guard > 0
                invariant
                    self.wf(),
                    hist.len() == j,
                    short_rounds(o, *self, ctx, len, hist),
                    o.children_of(ctx).len() == 0,
                    scope == o.scope_of(ctx),
                    scope == Scope::Sequence || scope == Scope::Stack,
                    rows(lens) == rows_or_empty(o.spec_lengths(), ctx),
                    rows(progs) == rows_or_empty(o.spec_programs(), ctx),
                    rows(regs) == rows_or_empty(o.spec_registers(), ctx),
                    rows(pcs) == rows_or_empty(o.spec_pcs(), ctx),
                    rows(vels) == rows_or_empty(o.spec_velocities(), ctx),
                    rows(temps) == rows_or_empty(o.spec_tempos(), ctx),
                    j as int + guard as int <= u64::MAX as int,
                    self.spec_tables() == rounds_applied(o.spec_tables(), ctx, scope, j as nat),
                    self.spec_children() == o.spec_children(),
                    self.spec_parents() == o.spec_parents(),
                    self.spec_ctx_count() == o.spec_ctx_count(),
                    self.spec_ctxs() == o.spec_ctxs(),
                    self.spec_scopes() == o.spec_scopes(),
                    self.spec_layers() == o.spec_layers(),
                    self.same_reader(&o),
                    self.same_rest(&o),
                    reached ==> (ctx_len(*self, ctx, climbs(ctx)) matches Some(q) && q_value_le(len_q(len), q)),
                    failed ==> !length_known(*self, ctx),
                    !reached && !failed ==> j as int + guard as int == u64::MAX as int,
                    immediate ==> *self == o && j == 0 && !failed,
                    immediate && guard < u64::MAX ==> reached,
                    immediate == (o.children_of(ctx).len() == 0 && ctx_len_fits(o, ctx, climbs(ctx)) && (ctx_len(o, ctx, climbs(ctx)) matches Some(
                        q,
                    ) && q_value_le(len_q(len), q))),
                decreases guard,
            {
                match self.get_ctx_length(ctx) {
                    None => {
                        failed = true;
                    },
                    Some(l) => {
                        proof {
                            let q = ctx_len(*self, ctx, climbs(ctx))->0;
                            lemma_stands_value_le(len, len_q(len), l, q);
                        }
                        if l.value_lt(&len) {
                            let ghost t0 = self.spec_tables();
                            let ghost h0 = hist;
                            proof {
                                hist = hist.push(*self);
                            }
                            self.add(ctx, Column::Length(round_row_of(&lens, j)));
                            self.add(ctx, Column::Program(round_row_of(&progs, j)));
                            self.add(ctx, Column::Register(round_row_of(&regs, j)));
                            self.add(ctx, Column::Pc(round_row_of(&pcs, j)));
                            self.add(ctx, Column::Velocity(round_row_of(&vels, j)));
                            self.add(ctx, Column::Tempo(round_row_of(&temps, j)));
                            proof {
                                assert(self.spec_tables() == round_applied(t0, ctx, scope, o.spec_tables(), j as int));
                                assert forall|i: int| 0 <= i < hist.len() implies #[trigger] round_short(o, hist[i], ctx, len, i) by {
                                    if i < h0.len() {
                                        assert(hist[i] == h0[i]);
                                    }
                                }
                            }
                            j = j + 1;
                        } else {
                            reached = true;
                        }
                    },
                }
                guard = guard - 1;
            }
            proof {
                if !reached && exists|k: nat| k < u64::MAX && #[trigger] rounds_reach(o, ctx, len, k as int) {
                    let k = choose|k: nat| k < u64::MAX && #[trigger] rounds_reach(o, ctx, len, k as int);
                    if failed && j <= k {
                        assert(round_state(o, *self, ctx, j as int));
                    } else {
                        assert(round_short(o, hist[k as int], ctx, len, k as int));
                        assert(round_state(o, hist[k as int], ctx, k as int));
                    }
                }
            }
        }
        reached
    }
}

/// The smallest length of a row, the first on a tie; zero for an empty row.
pub open spec fn row_min_or_zero(r: Seq<Length>) -> LenQ {
    if r.len() == 0 {
        LenQ::Val(0, 1)
    } else {
        row_min(r)
    }
}

/// The smallest length of a row has a numerator that is not negative.
proof fn lemma_row_min_nonneg(r: Seq<Length>)
    ensures
        q_nonneg(row_min(r)),
    decreases r.len(),
{
    if r.len() > 1 {
        lemma_row_min_nonneg(r.drop_last());
    }
}

/// Where an earlier column ends has numbers no larger than where a later one
/// ends.
proof fn lemma_emitted_prefix(start: LenQ, rs: Seq<Seq<Length>>, j: nat, n: nat)
    requires
        j <= n <= rs.len(),
        q_nonneg(start),
        emitted_end(start, rs, n) is Some,
    ensures
        emitted_end(start, rs, j) is Some,
        q_nonneg(emitted_end(start, rs, j)->0),
        q_ratio(emitted_end(start, rs, j)->0).0 <= q_ratio(emitted_end(start, rs, n)->0).0,
        q_ratio(emitted_end(start, rs, j)->0).1 <= q_ratio(emitted_end(start, rs, n)->0).1,
    decreases n - j, n,
{
    if j == n {
        if n == 0 {
            lemma_q_add_grows(start, LenQ::Val(0, 1));
        } else {
            lemma_emitted_prefix(start, rs, (n - 1) as nat, (n - 1) as nat);
            let r = rs[n - 1];
            if r.len() > 0 {
                lemma_row_min_nonneg(r);
            }
            lemma_q_add_grows(emitted_end(start, rs, (n - 1) as nat)->0, row_min_or_zero(r));
        }
    } else {
        lemma_emitted_prefix(start, rs, j, (n - 1) as nat);
        lemma_emitted_prefix(start, rs, (n - 1) as nat, (n - 1) as nat);
        let r = rs[n - 1];
        if r.len() > 0 {
            lemma_row_min_nonneg(r);
        }
        lemma_q_add_grows(emitted_end(start, rs, (n - 1) as nat)->0, row_min_or_zero(r));
    }
}

/// Where the sequencing of `rows` from `start` ends: `start` plus the
/// smallest length of each row, nothing when a sum has a zero denominator.
pub open spec fn emitted_end(start: LenQ, rs: Seq<Seq<Length>>, n: nat) -> Option<LenQ>
    decreases n,
{
    if n == 0 {
        q_add(start, LenQ::Val(0, 1))
    } else {
        match emitted_end(start, rs, (n - 1) as nat) {
            Some(e) => q_add(e, row_min_or_zero(rs[n - 1])),
            None => None,
        }
    }
}

/// Before round `i` of `cycle_fill` on the context `c` without children,
/// `h` held the tables of `o` after `i` rounds, with the tree of `o`, and
/// its length fell short of `len`.
pub open spec fn round_short(o: State, h: State, c: Ctx, len: Length, i: int) -> bool {
    &&& h.spec_tables() == rounds_applied(o.spec_tables(), c, o.scope_of(c), i as nat)
    &&& h.spec_children() == o.spec_children()
    &&& h.spec_parents() == o.spec_parents()
    &&& h.spec_scopes() == o.spec_scopes()
    &&& ctx_len(h, c, climbs(c)) matches Some(q) && !q_value_le(len_q(len), q)
}

/// `h` is `o` after `i` rounds of `cycle_fill` on the context `c` without
/// children: the tables grown by `i` rows, everything that the length of a
/// context reads otherwise as in `o`.
pub open spec fn round_state(o: State, h: State, c: Ctx, i: int) -> bool {
    &&& h.spec_tables() == rounds_applied(o.spec_tables(), c, o.scope_of(c), i as nat)
    &&& h.spec_children() == o.spec_children()
    &&& h.spec_parents() == o.spec_parents()
    &&& h.spec_scopes() == o.spec_scopes()
}

/// Filling the context `c` without children up to `len` ends after `k`
/// rounds: the length of `c` can be worked out after each of the first `k`
/// rounds and before them, and after `k` rounds it is at least `len`.
pub open spec fn rounds_reach(o: State, c: Ctx, len: Length, k: int) -> bool {
    forall|h: State, i: int|
        0 <= i <= k && #[trigger] round_state(o, h, c, i) ==> {
            &&& length_known(h, c)
            &&& i == k ==> (ctx_len(h, c, climbs(c)) matches Some(q) && q_value_le(len_q(len), q))
        }
}

/// `h` is `o` after `i` rounds of `cycle_fill` on the context `c` with
/// children: its children listed again `i` times in turn, everything else
/// that the length of a context reads as in `o`.
pub open spec fn child_round_state(o: State, h: State, c: Ctx, i: int) -> bool {
    &&& h.spec_children() == o.spec_children().insert(ctx_key(c), o.children_of(c) + cycled(o.children_of(c), i))
    &&& h.spec_tables() == o.spec_tables()
    &&& h.spec_parents() == o.spec_parents()
    &&& h.spec_scopes() == o.spec_scopes()
}

/// Filling the context `c` with children beyond `len` ends after `k`
/// rounds: the length of `c` can be worked out after each of the first `k`
/// rounds and before them, and after `k` rounds it is above `len`.
pub open spec fn child_rounds_reach(o: State, c: Ctx, len: Length, k: int) -> bool {
    forall|h: State, i: int|
        0 <= i <= k && #[trigger] child_round_state(o, h, c, i) ==> {
            &&& length_known(h, c)
            &&& i == k ==> (ctx_len(h, c, climbs(c)) matches Some(q) && !q_value_le(q, len_q(len)))
        }
}

/// The length of `c` can be worked out: `ctx_len` has it and every sum on the
/// way fits in a `u64`.
pub open spec fn length_known(s: State, c: Ctx) -> bool {
    ctx_len(s, c, climbs(c)) is Some && ctx_len_fits(s, c, climbs(c))
}

/// Before round `i` of `cycle_fill` on the context `c` with children, `h`
/// listed the children of `c` in `o` followed by `i` of them again, in
/// turn, with the tables of `o`, and its length was at most `len`.
pub open spec fn child_round_short(o: State, h: State, c: Ctx, len: Length, i: int) -> bool {
    &&& h.spec_children() == o.spec_children().insert(ctx_key(c), o.children_of(c) + cycled(o.children_of(c), i))
    &&& h.spec_tables() == o.spec_tables()
    &&& h.spec_parents() == o.spec_parents()
    &&& h.spec_scopes() == o.spec_scopes()
    &&& ctx_len(h, c, climbs(c)) matches Some(q) && q_value_le(q, len_q(len))
}

/// `n` lists the children of `c` in `o` followed by as many of them again
/// as `hist` has states, and before each of those the length of `c` was at
/// most `len`: no fewer would have done.
pub open spec fn short_child_rounds(o: State, n: State, c: Ctx, len: Length, hist: Seq<State>) -> bool {
    &&& n.spec_children() == o.spec_children().insert(ctx_key(c), o.children_of(c) + cycled(o.children_of(c), hist.len() as int))
    &&& forall|i: int| 0 <= i < hist.len() ==> #[trigger] child_round_short(o, hist[i], c, len, i)
}

/// `n` holds the tables of `o` after as many rounds of `cycle_fill` on `c`
/// as `hist` has states, and before each of them the length of `c` fell
/// short of `len`: no fewer rounds would have done.
pub open spec fn short_rounds(o: State, n: State, c: Ctx, len: Length, hist: Seq<State>) -> bool {
    &&& n.spec_tables() == rounds_applied(o.spec_tables(), c, o.scope_of(c), hist.len())
    &&& forall|i: int| 0 <= i < hist.len() ==> #[trigger] round_short(o, hist[i], c, len, i)
}

/// Playing rows from `start` ends no earlier than `start`.
proof fn lemma_emitted_end_after(start: LenQ, rs: Seq<Seq<Length>>, n: nat)
    requires
        q_nonneg(start),
        q_ratio(start).1 > 0,
        emitted_end(start, rs, n) is Some,
    ensures
        q_value_le(start, emitted_end(start, rs, n)->0),
        q_nonneg(emitted_end(start, rs, n)->0),
        q_ratio(emitted_end(start, rs, n)->0).1 > 0,
    decreases n,
{
    let (ns, ds) = q_ratio(start);
    if n == 0 {
        assert(ns * (ds * 1) <= (ns * 1 + 0 * ds) * ds) by (nonlinear_arith);
        assert(ds * 1 > 0) by (nonlinear_arith) requires ds > 0;
    } else {
        lemma_emitted_end_after(start, rs, (n - 1) as nat);
        let e = emitted_end(start, rs, (n - 1) as nat)->0;
        let b = row_min_or_zero(rs[n - 1]);
        if rs[n - 1].len() > 0 {
            lemma_row_min_nonneg(rs[n - 1]);
        }
        let (ne, de) = q_ratio(e);
        let (nb, db) = q_ratio(b);
        assert(db > 0);
        let nn = ne * db + nb * de;
        let dn = de * db;
        assert(dn > 0) by (nonlinear_arith) requires de > 0, db > 0, dn == de * db;
        assert(nn >= 0) by (nonlinear_arith) requires ne >= 0, nb >= 0, de > 0, db > 0, nn == ne * db + nb * de;
        assert(ne * dn <= nn * de) by (nonlinear_arith)
            requires nn == ne * db + nb * de, dn == de * db, nb >= 0, de > 0;
        assert(ns * dn <= nn * ds) by (nonlinear_arith)
            requires ns * de <= ne * ds, ne * dn <= nn * de, de > 0, ds > 0, dn > 0, ns >= 0;
    }
}

/// What stands for a duration no earlier than `s` is no earlier than `s`.
proof fn lemma_stands_after(s: LenQ, q: LenQ, e: Length)
    requires
        q_value_le(s, q),
        stands_for(e, q),
        q_ratio(s).1 > 0,
        q_ratio(q).1 > 0,
        e is MicroSeconds,
        e.spec_ratio().denom > 0,
    ensures
        q_value_le(s, len_q(e)),
{
    let (ns, ds) = q_ratio(s);
    let (nq, dq) = q_ratio(q);
    let (ne, de) = q_ratio(len_q(e));
    assert(de == e.spec_ratio().denom && ne == e.spec_ratio().numer);
    assert(ne * dq == nq * de);
    assert(ns * de <= ne * ds) by (nonlinear_arith)
        requires ns * dq <= nq * ds, ne * dq == nq * de, dq > 0, de > 0, ds > 0;
}

/// `(p, q)` is a place of the timeline: slice `q` of time `p`.
pub open spec fn is_entry(tl: Seq<(Length, Seq<Slice>)>, p: int, q: int) -> bool {
    0 <= p < tl.len() && 0 <= q < tl[p].1.len()
}

/// The time and the slice at place `(p, q)` of the timeline.
pub open spec fn entry(tl: Seq<(Length, Seq<Slice>)>, p: int, q: int) -> (Length, Slice) {
    (tl[p].0, tl[p].1[q])
}

/// `r` still holds every slice of `tl`, under the same time and at the same
/// place among the slices of that time.
pub open spec fn keeps(tl: Seq<(Length, Seq<Slice>)>, r: Seq<(Length, Seq<Slice>)>) -> bool {
    forall|p: int, q: int|
        #[trigger] is_entry(tl, p, q) ==> exists|p2: int| #[trigger] is_entry(r, p2, q) && entry(r, p2, q) == entry(tl, p, q)
}

/// The slice holds column `k` of `ctx` in the tables: row `k` of each
/// parameter.
pub open spec fn is_column(s: Slice, t: Tables, ctx: Ctx, k: int) -> bool {
    &&& s.spec_pcs() == rows_or_empty(t.pcs, ctx)[k]
    &&& s.spec_registers() == rows_or_empty(t.registers, ctx)[k]
    &&& s.spec_lengths() == rows_or_empty(t.lengths, ctx)[k]
    &&& s.spec_velocities() == rows_or_empty(t.velocities, ctx)[k]
    &&& s.spec_tempos() == rows_or_empty(t.tempos, ctx)[k]
    &&& s.spec_programs() == rows_or_empty(t.programs, ctx)[k]
}

/// The timeline plays column `k` of `ctx` at the time `at`.
pub open spec fn plays(tl: Seq<(Length, Seq<Slice>)>, at: LenQ, t: Tables, ctx: Ctx, k: int) -> bool {
    exists|p: int, q: int| #[trigger] is_entry(tl, p, q) && stands_for(tl[p].0, at) && is_column(tl[p].1[q], t, ctx, k)
}

/// A timeline keeps itself.
proof fn lemma_keeps_refl(tl: Seq<(Length, Seq<Slice>)>)
    ensures
        keeps(tl, tl),
{
    assert forall|p: int, q: int| #[trigger] is_entry(tl, p, q) implies exists|p2: int| #[trigger] is_entry(tl, p2, q)
        && entry(tl, p2, q) == entry(tl, p, q) by {
        assert(is_entry(tl, p, q));
    }
}

/// Keeping is transitive.
proof fn lemma_keeps_trans(a: Seq<(Length, Seq<Slice>)>, b: Seq<(Length, Seq<Slice>)>, c: Seq<(Length, Seq<Slice>)>)
    requires
        keeps(a, b),
        keeps(b, c),
    ensures
        keeps(a, c),
{
    assert forall|p: int, q: int| #[trigger] is_entry(a, p, q) implies exists|p2: int| #[trigger] is_entry(c, p2, q)
        && entry(c, p2, q) == entry(a, p, q) by {
        let pb = choose|p2: int| #[trigger] is_entry(b, p2, q) && entry(b, p2, q) == entry(a, p, q);
        let pc = choose|p2: int| #[trigger] is_entry(c, p2, q) && entry(c, p2, q) == entry(b, pb, q);
        assert(is_entry(c, pc, q));
    }
}

/// What a timeline plays, a timeline that keeps it plays too.
proof fn lemma_keeps_plays(tl: Seq<(Length, Seq<Slice>)>, r: Seq<(Length, Seq<Slice>)>, at: LenQ, t: Tables, ctx: Ctx, k: int)
    requires
        keeps(tl, r),
        plays(tl, at, t, ctx, k),
    ensures
        plays(r, at, t, ctx, k),
{
    let (p, q) = choose|p: int, q: int| #[trigger] is_entry(tl, p, q) && stands_for(tl[p].0, at) && is_column(tl[p].1[q], t, ctx, k);
    let p2 = choose|p2: int| #[trigger] is_entry(r, p2, q) && entry(r, p2, q) == entry(tl, p, q);
    assert(is_entry(r, p2, q));
}

/// Adding a slice keeps what the timeline held, and holds the new slice at a
/// time that is the same number as `at`.
proof fn lemma_inserted(tl: Seq<(Length, Seq<Slice>)>, at: Length, s: Slice, r: Seq<(Length, Seq<Slice>)>)
    requires
        timeline_inserted(tl, at, s, r),
    ensures
        keeps(tl, r),
        exists|p: int, q: int| #[trigger] is_entry(r, p, q) && r[p].1[q] == s && (r[p].0 == at || r[p].0.spec_ratio().spec_same(at.spec_ratio())),
{
    let p0 = choose|p: int| #[trigger] is_place(tl, at, p) && if p < tl.len() && tl[p].0.spec_ratio().spec_same(at.spec_ratio()) {
        r == tl.update(p, (tl[p].0, tl[p].1.push(s)))
    } else {
        r == tl.insert(p, (at, seq![s]))
    };
    assert(is_place(tl, at, p0));
    if p0 < tl.len() && tl[p0].0.spec_ratio().spec_same(at.spec_ratio()) {
        assert forall|p: int, q: int| #[trigger] is_entry(tl, p, q) implies exists|p2: int| #[trigger] is_entry(r, p2, q)
            && entry(r, p2, q) == entry(tl, p, q) by {
            assert(is_entry(r, p, q));
            assert(entry(r, p, q) == entry(tl, p, q));
        }
        let q0 = tl[p0].1.len() as int;
        assert(is_entry(r, p0, q0));
    } else {
        assert forall|p: int, q: int| #[trigger] is_entry(tl, p, q) implies exists|p2: int| #[trigger] is_entry(r, p2, q)
            && entry(r, p2, q) == entry(tl, p, q) by {
            if p < p0 {
                assert(is_entry(r, p, q));
                assert(entry(r, p, q) == entry(tl, p, q));
            } else {
                assert(is_entry(r, p + 1, q));
                assert(entry(r, p + 1, q) == entry(tl, p, q));
            }
        }
        assert(is_entry(r, p0, 0));
    }
}

/// A time the same number as a duration that stands for `q` stands for `q`
/// too.
proof fn lemma_same_stands(key: Length, at: Length, q: LenQ)
    requires
        key is MicroSeconds,
        key.spec_ratio().wf(),
        at is MicroSeconds,
        at.wf(),
        key.spec_ratio().spec_same(at.spec_ratio()),
        stands_for(at, q),
    ensures
        stands_for(key, q),
{
    let k = key.spec_ratio();
    let a = at.spec_ratio();
    let (n, d) = q_ratio(q);
    if a.numer == n && a.denom == d {
        assert(k.numer * d == n * k.denom);
    } else {
        assert(d > 0);
        assert(k.numer * d == n * k.denom) by (nonlinear_arith)
            requires
                k.numer * a.denom == a.numer * k.denom,
                a.numer * d == n * a.denom,
                a.denom > 0,
                d > 0,
        {
            assert(k.numer * d * a.denom == a.numer * k.denom * d);
            assert(a.numer * d * k.denom == n * a.denom * k.denom);
        }
    }
}

/// No row of `d` goes from the table, and its first row stays as it was.
pub open spec fn row0_kept<T>(m: Map<Seq<int>, Seq<Seq<T>>>, m2: Map<Seq<int>, Seq<Seq<T>>>, d: Ctx) -> bool {
    &&& rows_or_empty(m, d).len() <= rows_or_empty(m2, d).len()
    &&& rows_or_empty(m, d).len() > 0 ==> rows_or_empty(m2, d)[0] == rows_or_empty(m, d)[0]
}

/// No row of `d` goes from any table, and the first column of `d` stays.
pub open spec fn first_column_kept(t: Tables, t2: Tables, d: Ctx) -> bool {
    &&& row0_kept(t.pcs, t2.pcs, d)
    &&& row0_kept(t.lengths, t2.lengths, d)
    &&& row0_kept(t.velocities, t2.velocities, d)
    &&& row0_kept(t.tempos, t2.tempos, d)
    &&& row0_kept(t.registers, t2.registers, d)
    &&& row0_kept(t.programs, t2.programs, d)
}

/// A context that a stack plays as one of its voices: a sequence with no
/// children and at least one column.
pub open spec fn voice(s: State, c: Ctx) -> bool {
    s.scope_of(c) == Scope::Sequence && s.children_of(c).len() == 0 && s.column_count(c) > 0
}

proof fn lemma_first_column_trans(a: Tables, b: Tables, c: Tables, d: Ctx)
    requires
        first_column_kept(a, b, d),
        first_column_kept(b, c, d),
    ensures
        first_column_kept(a, c, d),
{
}

proof fn lemma_after_add_keeps<T>(m: Map<Seq<int>, Seq<Seq<T>>>, c: Ctx, v: Seq<T>, scope: Scope, d: Ctx)
    requires
        ctx_key(d) != ctx_key(c) || scope == Scope::Sequence,
    ensures
        row0_kept(m, after_add(m, c, v, scope), d),
{
    if ctx_key(d) != ctx_key(c) {
        assert(rows_or_empty(after_add(m, c, v, scope), d) == rows_or_empty(m, d));
    } else {
        assert(rows_or_empty(after_add(m, c, v, scope), d) == rows_or_empty(m, d).push(v));
    }
}

proof fn lemma_after_add_tempos_keeps(m: Map<Seq<int>, Seq<Seq<Mpb>>>, c: Ctx, v: Seq<Mpb>, scope: Scope, d: Ctx)
    requires
        ctx_key(d) != ctx_key(c) || scope == Scope::Sequence,
    ensures
        row0_kept(m, after_add_tempos(m, c, v, scope), d),
{
    if ctx_key(d) != ctx_key(c) {
        assert(rows_or_empty(after_add_tempos(m, c, v, scope), d) == rows_or_empty(m, d));
    }
}

/// Repeating the rows of `c` keeps the first column of every context, of `c`
/// itself too when it is a sequence.
proof fn lemma_rounds_keep(t: Tables, c: Ctx, scope: Scope, k: nat, d: Ctx)
    requires
        ctx_key(d) != ctx_key(c) || scope == Scope::Sequence,
    ensures
        first_column_kept(t, rounds_applied(t, c, scope, k), d),
    decreases k,
{
    if k > 0 {
        lemma_rounds_keep(t, c, scope, (k - 1) as nat, d);
        let t1 = rounds_applied(t, c, scope, (k - 1) as nat);
        let j = k - 1;
        lemma_after_add_keeps(t1.lengths, c, round_row(rows_or_empty(t.lengths, c), j), scope, d);
        lemma_after_add_keeps(t1.programs, c, round_row(rows_or_empty(t.programs, c), j), scope, d);
        lemma_after_add_keeps(t1.registers, c, round_row(rows_or_empty(t.registers, c), j), scope, d);
        lemma_after_add_keeps(t1.pcs, c, round_row(rows_or_empty(t.pcs, c), j), scope, d);
        lemma_after_add_keeps(t1.velocities, c, round_row(rows_or_empty(t.velocities, c), j), scope, d);
        lemma_after_add_tempos_keeps(t1.tempos, c, round_row(rows_or_empty(t.tempos, c), j), scope, d);
        lemma_first_column_trans(t, t1, rounds_applied(t, c, scope, k), d);
    } else {
        assert(first_column_kept(t, t, d));
    }
}

/// With its first column kept, what plays the first column of `d` in the
/// later tables plays it in the earlier ones.
proof fn lemma_plays_first_column(tl: Seq<(Length, Seq<Slice>)>, at: LenQ, t: Tables, t2: Tables, d: Ctx)
    requires
        first_column_kept(t, t2, d),
        rows_or_empty(t.pcs, d).len() > 0,
        rows_or_empty(t.lengths, d).len() > 0,
        rows_or_empty(t.velocities, d).len() > 0,
        rows_or_empty(t.tempos, d).len() > 0,
        rows_or_empty(t.registers, d).len() > 0,
        rows_or_empty(t.programs, d).len() > 0,
        plays(tl, at, t2, d, 0),
    ensures
        plays(tl, at, t, d, 0),
{
    let (p, q) = choose|p: int, q: int| #[trigger] is_entry(tl, p, q) && stands_for(tl[p].0, at) && is_column(tl[p].1[q], t2, d, 0);
    assert(is_entry(tl, p, q) && stands_for(tl[p].0, at) && is_column(tl[p].1[q], t, d, 0));
}

impl State {
    /// The number of columns of `ctx` that sequencing reads: as many as every
    /// parameter has rows.
    pub open spec fn column_count(&self, ctx: Ctx) -> nat {
        let a = rows_or_empty(self.spec_lengths(), ctx).len();
        let b = rows_or_empty(self.spec_pcs(), ctx).len();
        let c = rows_or_empty(self.spec_registers(), ctx).len();
        let d = rows_or_empty(self.spec_velocities(), ctx).len();
        let e = rows_or_empty(self.spec_tempos(), ctx).len();
        let f = rows_or_empty(self.spec_programs(), ctx).len();
        let m1 = if b < a { b } else { a };
        let m2 = if c < m1 { c } else { m1 };
        let m3 = if d < m2 { d } else { m2 };
        let m4 = if e < m3 { e } else { m3 };
        if f < m4 { f } else { m4 }
    }

    /// Puts the columns of `ctx` on the timeline one after the other from
    /// `start`, each lasting the smallest of its lengths, and returns where
    /// they end; `None` when a time does not fit.
    pub fn sequence_columns(&mut self, ctx: Ctx, start: Length) -> (r: Option<Length>)
        requires
            old(self).wf(),
        ensures
            final(self).wf(),
            final(self).spec_tables() == old(self).spec_tables(),
            final(self).same_tree(old(self)),
            final(self).same_reader(old(self)),
            final(self).spec_playhead() == old(self).spec_playhead(),
            final(self).spec_thunks() == old(self).spec_thunks(),
            final(self).spec_bindings() == old(self).spec_bindings(),
            final(self).spec_timeline().len() >= old(self).spec_timeline().len(),
            final(self).spec_timeline().len() <= old(self).spec_timeline().len() + old(self).column_count(ctx),
            r matches Some(e) ==> e is MicroSeconds && e.wf() && (emitted_end(len_q(start), rows_or_empty(old(self).spec_lengths(), ctx), old(self).column_count(ctx)) matches Some(q) && stands_for(e, q) && bounded_by(e, q)),
            emitted_end(len_q(start), rows_or_empty(old(self).spec_lengths(), ctx), old(self).column_count(ctx)) matches Some(q)
                && q_fits(q) ==> r is Some,
            keeps(old(self).spec_timeline(), final(self).spec_timeline()),
            q_ratio(len_q(start)).1 > 0 ==> times_from(old(self).spec_timeline(), final(self).spec_timeline(), start),
            r is Some ==> forall|k: int| 0 <= k < old(self).column_count(ctx) ==> (#[trigger] emitted_end(
                len_q(start),
                rows_or_empty(old(self).spec_lengths(), ctx),
                k as nat,
            ) matches Some(at) && plays(final(self).spec_timeline(), at, old(self).spec_tables(), ctx, k)),
    {
        let lengths = copy_rows_or_empty(self.lengths(ctx));
        let pcs = copy_rows_or_empty(self.pcs(ctx));
        let registers = copy_rows_or_empty(self.registers(ctx));
        let velocities = copy_rows_or_empty(self.velocities(ctx));
        let tempos = copy_rows_or_empty(self.tempos(ctx));
        let programs = copy_rows_or_empty(self.programs(ctx));
        proof {
            assert(rows(lengths).len() == lengths@.len());
            assert(rows(pcs).len() == pcs@.len());
            assert(rows(registers).len() == registers@.len());
            assert(rows(velocities).len() == velocities@.len());
            assert(rows(tempos).len() == tempos@.len());
            assert(rows(programs).len() == programs@.len());
        }
        let mut n = lengths.len();
        if pcs.len() < n { n = pcs.len(); }
        if registers.len() < n { n = registers.len(); }
        if velocities.len() < n { n = velocities.len(); }
        if tempos.len() < n { n = tempos.len(); }
        if programs.len() < n { n = programs.len(); }
        let ghost o = *self;
        let ghost rs = rows_or_empty(o.spec_lengths(), ctx);
        proof {
            assert(n == o.column_count(ctx));
            lemma_keeps_refl(o.spec_timeline());
            lemma_times_refl(o.spec_timeline(), start);
            assert(rows(pcs) == rows_or_empty(o.spec_pcs(), ctx));
            assert(rows(registers) == rows_or_empty(o.spec_registers(), ctx));
            assert(rows(velocities) == rows_or_empty(o.spec_velocities(), ctx));
            assert(rows(tempos) == rows_or_empty(o.spec_tempos(), ctx));
            assert(rows(programs) == rows_or_empty(o.spec_programs(), ctx));
        }
        let mut counter = start;
        let mut len = Length::default();
        let mut k: usize = 0;
        while k < n
            invariant
                self.wf(),
                o == *old(self),
                k <= n,
                n == o.column_count(ctx),
                n <= lengths@.len(),
                n <= pcs@.len(),
                n <= registers@.len(),
                n <= velocities@.len(),
                n <= tempos@.len(),
                n <= programs@.len(),
                rows(lengths) == rs,
                rows(lengths).len() == lengths@.len(),
                self.spec_tables() == o.spec_tables(),
                self.same_tree(&o),
                self.same_reader(&o),
                self.spec_playhead() == o.spec_playhead(),
                self.spec_thunks() == o.spec_thunks(),
                self.spec_bindings() == o.spec_bindings(),
                self.spec_timeline().len() >= o.spec_timeline().len(),
                self.spec_timeline().len() <= o.spec_timeline().len() + k,
                k == 0 ==> counter == start && len_q(len) == LenQ::Val(0, 1),
                k > 0 ==> counter is MicroSeconds && counter.wf() && (emitted_end(len_q(start), rs, (k - 1) as nat) matches Some(q) && stands_for(counter, q) && bounded_by(counter, q)),
                k > 0 ==> len_q(len) == row_min_or_zero(rs[k - 1]),
                rs.len() >= n,
                rs == rows_or_empty(o.spec_lengths(), ctx),
                rows(pcs) == rows_or_empty(o.spec_pcs(), ctx),
                rows(registers) == rows_or_empty(o.spec_registers(), ctx),
                rows(velocities) == rows_or_empty(o.spec_velocities(), ctx),
                rows(tempos) == rows_or_empty(o.spec_tempos(), ctx),
                rows(programs) == rows_or_empty(o.spec_programs(), ctx),
                keeps(o.spec_timeline(), self.spec_timeline()),
                q_ratio(len_q(start)).1 > 0 ==> times_from(o.spec_timeline(), self.spec_timeline(), start),
                forall|j: int| 0 <= j < k ==> (#[trigger] emitted_end(len_q(start), rs, j as nat) matches Some(at)
                    && plays(self.spec_timeline(), at, o.spec_tables(), ctx, j)),
            decreases n - k,
        {
            let next = add_lengths(&counter, &len);
            proof {
                lemma_own_bound(len);
                lemma_own_bound(start);
                assert(stands_for(len, len_q(len)));
                if k == 0 {
                    assert(stands_for(start, len_q(start)));
                }
            }
            match next {
                Some(c2) => {
                    proof {
                        if k > 0 {
                            let q = emitted_end(len_q(start), rs, (k - 1) as nat)->0;
                            assert(stands_for(len, len_q(len)));
                        } else {
                            assert(stands_for(start, len_q(start)));
                            assert(stands_for(len, LenQ::Val(0, 1)));
                        }
                    }
                    counter = c2;
                },
                None => {
                    proof {
                        if emitted_end(len_q(start), rs, n as nat) is Some {
                            lemma_emitted_prefix(len_q(start), rs, k as nat, n as nat);
                        }
                    }
                    return None;
                },
            }
            let slice = Slice::new(
                copy_row(&pcs[k]),
                copy_row(&registers[k]),
                copy_row(&lengths[k]),
                copy_row(&velocities[k]),
                copy_row(&tempos[k]),
                copy_row(&programs[k]),
            );
            let ghost before = self.spec_timeline();
            let ghost sl = slice;
            proof {
                assert(rows(pcs)[k as int] == pcs@[k as int]@);
                assert(rows(registers)[k as int] == registers@[k as int]@);
                assert(rows(lengths)[k as int] == lengths@[k as int]@);
                assert(rows(velocities)[k as int] == velocities@[k as int]@);
                assert(rows(tempos)[k as int] == tempos@[k as int]@);
                assert(rows(programs)[k as int] == programs@[k as int]@);
                assert(is_column(sl, o.spec_tables(), ctx, k as int));
            }
            self.insert_slice(counter, slice);
            proof {
                assert(rows(lengths)[k as int] == lengths@[k as int]@);
                let after = self.spec_timeline();
                if q_ratio(len_q(start)).1 > 0 {
                    lemma_emitted_end_after(len_q(start), rs, k as nat);
                    lemma_stands_after(len_q(start), emitted_end(len_q(start), rs, k as nat)->0, counter);
                    lemma_insert_times(o.spec_timeline(), before, counter, sl, after, start);
                }
                lemma_inserted(before, counter, sl, after);
                lemma_keeps_trans(o.spec_timeline(), before, after);
                let at = emitted_end(len_q(start), rs, k as nat)->0;
                assert(emitted_end(len_q(start), rs, k as nat) is Some);
                assert(stands_for(counter, at));
                let (p, q) = choose|p: int, q: int| #[trigger] is_entry(after, p, q) && after[p].1[q] == sl && (after[p].0
                    == counter || after[p].0.spec_ratio().spec_same(counter.spec_ratio()));
                crate::compiler::codegen::state::law_timeline_sorted(*self);
                assert(timeline_sorted(after));
                assert(after[p].0 is MicroSeconds && after[p].0.spec_ratio().wf());
                if after[p].0 != counter {
                    lemma_same_stands(after[p].0, counter, at);
                }
                assert(is_entry(after, p, q) && stands_for(after[p].0, at) && is_column(after[p].1[q], o.spec_tables(), ctx, k as int));
                assert forall|j: int| 0 <= j < k + 1 implies (#[trigger] emitted_end(len_q(start), rs, j as nat) matches Some(at2)
                    && plays(after, at2, o.spec_tables(), ctx, j)) by {
                    if j < k {
                        let at2 = emitted_end(len_q(start), rs, j as nat)->0;
                        lemma_keeps_plays(before, after, at2, o.spec_tables(), ctx, j);
                    }
                }
            }
            len = if lengths[k].len() == 0 { Length::default() } else { row_min_of(&lengths[k]) };
            k = k + 1;
        }
        proof {
            lemma_own_bound(len);
            lemma_own_bound(start);
            assert(stands_for(len, len_q(len)));
            if n == 0 {
                assert(stands_for(start, len_q(start)));
            }
        }
        match add_lengths(&counter, &len) {
            Some(c2) => {
                Some(c2)
            },
            None => None,
        }
    }
}

/// Every context of `o` without children has none in `n`.
pub open spec fn childless_kept(o: State, n: State) -> bool {
    forall|c: Ctx| #![trigger n.children_of(c)] o.children_of(c).len() == 0 ==> n.children_of(c).len() == 0
}

/// Every context of `n` is one of `o`, and contexts without children stay so.
pub open spec fn tree_shrunk(o: State, n: State) -> bool {
    &&& n.spec_ctxs().subset_of(o.spec_ctxs())
    &&& childless_kept(o, n)
}

/// A state shrinks nothing of itself.
pub proof fn lemma_tree_shrunk_refl(a: State)
    ensures
        tree_shrunk(a, a),
{
}

/// Shrinking the tree twice shrinks it.
pub proof fn lemma_tree_shrunk_trans(a: State, b: State, c: State)
    requires
        tree_shrunk(a, b),
        tree_shrunk(b, c),
    ensures
        tree_shrunk(a, c),
{
    assert forall|x: Ctx| a.children_of(x).len() == 0 implies #[trigger] c.children_of(x).len() == 0 by {
        assert(b.children_of(x).len() == 0);
    }
}

/// The same contexts and children shrink nothing.
proof fn lemma_tree_shrunk_same(a: State, b: State)
    requires
        b.spec_ctxs() == a.spec_ctxs(),
        b.spec_children() == a.spec_children(),
    ensures
        tree_shrunk(a, b),
{
}

/// Dropping a context shrinks the tree.
proof fn lemma_drop_shrinks(o: State, n: State, ctx: Ctx)
    requires
        n.spec_ctxs() == o.spec_ctxs().remove(ctx_key(ctx)),
        n.spec_children() == ({
            let c1 = o.spec_children().remove(ctx_key(ctx));
            let p = o.parent_of(ctx);
            if c1.contains_key(ctx_key(p)) {
                c1.insert(ctx_key(p), without_ctx(c1[ctx_key(p)], ctx))
            } else {
                c1
            }
        }),
    ensures
        tree_shrunk(o, n),
{
    let c1 = o.spec_children().remove(ctx_key(ctx));
    let p = o.parent_of(ctx);
    assert forall|x: Ctx| o.children_of(x).len() == 0 implies #[trigger] n.children_of(x).len() == 0 by {
        if c1.contains_key(ctx_key(p)) && ctx_key(x) == ctx_key(p) {
            assert(c1[ctx_key(p)] == o.spec_children()[ctx_key(p)]);
            assert(o.children_of(x) == o.spec_children()[ctx_key(p)]);
            assert(without_ctx(c1[ctx_key(p)], ctx) == c1[ctx_key(p)]);
        }
    }
}

/// `c`, played beside `first`, will be laid out: it has no children, is a
/// sequence or a stack, its length can be found with every sum fitting, it
/// lasts at least as long as `first`, and where its columns end from the
/// playhead fits.
pub open spec fn voice_fits(s: State, first: Ctx, c: Ctx) -> bool {
    &&& s.children_of(c).len() == 0
    &&& (s.scope_of(c) == Scope::Sequence || s.scope_of(c) == Scope::Stack)
    &&& ctx_len_fits(s, c, climbs(c))
    &&& ctx_len(s, c, climbs(c)) matches Some(q) && q_value_le(ctx_len(s, first, climbs(first))->0, q)
    &&& emitted_end(len_q(s.spec_playhead()), rows_or_empty(s.spec_lengths(), c), s.column_count(c)) matches Some(e) && q_fits(e)
}

/// Every context of `ctxs` fits beside the first, whose length can be found.
pub open spec fn voices_fit(s: State, ctxs: Seq<Ctx>) -> bool {
    &&& ctxs.len() > 0
    &&& ctx_len(s, ctxs[0], climbs(ctxs[0])) is Some
    &&& forall|i: int| 0 <= i < ctxs.len() ==> #[trigger] voice_fits(s, ctxs[0], ctxs[i])
}

/// A length that stands for `q0` compares with `qc` as `q0` does.
proof fn lemma_value_le_stands(len: Length, q0: LenQ, qc: LenQ)
    requires
        stands_for(len, q0),
        q_value_le(q0, qc),
    ensures
        q_value_le(len_q(len), qc),
{
    match (len, q0) {
        (Length::MicroSeconds(f), LenQ::Val(n, d)) => {
            if !(f.numer == n && f.denom == d) {
                let (nc, dc) = q_ratio(qc);
                let fn_ = f.numer as int;
                let fd = f.denom as int;
                assert(fn_ * dc <= nc * fd) by (nonlinear_arith)
                    requires fd > 0, d > 0, fn_ * d == n * fd, n * dc <= nc * d;
            }
        },
        _ => {},
    }
}

impl State {
    /// Plays the contexts `ctxs` side by side from the playhead: each is first
    /// repeated to the length of the first, then its columns are put on the
    /// timeline; the playhead moves to the earliest end, and the contexts are
    /// dropped. Returns `false`, leaving the work half done, when a length
    /// cannot be found, a context cannot be repeated, or a time does not fit.
    pub fn combine_sequences(&mut self, ctxs: Vec<Ctx>) -> (r: bool)
        requires
            old(self).wf(),
        ensures
            final(self).wf(),
            final(self).same_reader(old(self)),
            final(self).spec_ctx_count() == old(self).spec_ctx_count(),
            final(self).spec_scopes() == old(self).spec_scopes(),
            r ==> forall|i: int| 0 <= i < ctxs@.len() ==> pruned(*final(self), #[trigger] ctxs@[i]),
            r ==> forall|i: int| 0 <= i < ctxs@.len() ==> !final(self).children_of(old(self).parent_of(ctxs@[i])).contains(#[trigger] ctxs@[i]),
            r ==> final(self).spec_playhead() is MicroSeconds,
            r && ctxs@.len() > 0 ==> exists|t1: Tables| #[trigger] laid_out(*old(self), *final(self), ctxs@, t1),
            r ==> times_from(old(self).spec_timeline(), final(self).spec_timeline(), old(self).spec_playhead()),
            r && ctxs@.len() > 0 ==> q_value_le(
                len_q(old(self).spec_playhead()),
                len_q(final(self).spec_playhead()),
            ),
            r ==> forall|i: int| 0 <= i < ctxs@.len() && #[trigger] voice(*old(self), ctxs@[i]) ==> (emitted_end(
                len_q(old(self).spec_playhead()),
                Seq::empty(),
                0,
            ) matches Some(at) && plays(final(self).spec_timeline(), at, old(self).spec_tables(), ctxs@[i], 0)),
            tree_shrunk(*old(self), *final(self)),
            voices_fit(*old(self), ctxs@) ==> r,
            ctxs@.len() == 0 ==> r && final(self).spec_timeline() == old(self).spec_timeline() && final(self).spec_tables()
                == old(self).spec_tables() && final(self).spec_playhead() == Length::MicroSeconds(Fraction { numer: 0, denom: 1 }),
    {
        let ghost o = *self;
        proof {
            o.lemma_playhead_wf();
            if voices_fit(o, ctxs@) {
                assert(voice_fits(o, ctxs@[0], ctxs@[0]));
            }
        }
        let len = if ctxs.len() > 0 {
            match self.get_ctx_length(ctxs[0]) {
                Some(l) => l,
                None => {
                    return false;
                },
            }
        } else {
            Length::default()
        };
        let mut i: usize = 0;
        proof {
            assert forall|m: int| 0 <= m < ctxs@.len() && #[trigger] voice(o, ctxs@[m]) implies first_column_kept(
                o.spec_tables(),
                self.spec_tables(),
                ctxs@[m],
            ) by {}
        }
        proof {
            if voices_fit(o, ctxs@) {
                assert(voice_fits(o, ctxs@[0], ctxs@[0]));
            }
        }
        while i < ctxs.len()
            invariant
                self.wf(),
                i <= ctxs@.len(),
                o == *old(self),
                self.spec_parents() == o.spec_parents(),
                self.spec_timeline() == o.spec_timeline(),
                self.same_reader(old(self)),
                self.spec_ctx_count() == old(self).spec_ctx_count(),
                self.spec_scopes() == old(self).spec_scopes(),
                self.spec_playhead() == old(self).spec_playhead(),
                voices_fit(o, ctxs@) || ctxs@.len() == 0 ==> *self == o,
                tree_shrunk(o, *self),
                voices_fit(o, ctxs@) ==> (ctx_len(o, ctxs@[0], climbs(ctxs@[0])) matches Some(q0) && stands_for(len, q0)),
                forall|m: int| 0 <= m < ctxs@.len() && #[trigger] voice(o, ctxs@[m]) ==> first_column_kept(
                    o.spec_tables(),
                    self.spec_tables(),
                    ctxs@[m],
                ) && self.children_of(ctxs@[m]).len() == 0,
            decreases ctxs@.len() - i,
        {
            let c = ctxs[i];
            let ch = self.children(c);
            let sc = self.scope(c);
            proof {
                if voices_fit(o, ctxs@) {
                    assert(voice_fits(o, ctxs@[0], ctxs@[i as int]));
                    let q0 = ctx_len(o, ctxs@[0], climbs(ctxs@[0]))->0;
                    let qc = ctx_len(o, c, climbs(c))->0;
                    lemma_value_le_stands(len, q0, qc);
                }
            }
            if ch.len() == 0 && sc != Scope::Sequence && sc != Scope::Stack {
                return false;
            }
            let ghost before = *self;
            let filled = self.cycle_fill(c, len);
            proof {
                assert forall|x: Ctx| before.children_of(x).len() == 0 implies #[trigger] self.children_of(x).len() == 0 by {
                    if before.children_of(c).len() > 0 && ctx_key(x) == ctx_key(c) {
                        assert(before.children_of(x) == before.children_of(c));
                    }
                }
                assert(tree_shrunk(before, *self));
                lemma_tree_shrunk_trans(o, before, *self);
            }
            if !filled {
                return false;
            }
            proof {
                assert forall|m: int| 0 <= m < ctxs@.len() && #[trigger] voice(o, ctxs@[m]) implies first_column_kept(
                    o.spec_tables(),
                    self.spec_tables(),
                    ctxs@[m],
                ) && self.children_of(ctxs@[m]).len() == 0 by {
                    let d = ctxs@[m];
                    crate::compiler::codegen::state::lemma_ctx_key_injective(d, c);
                    if before.children_of(c).len() > 0 {
                        assert(self.spec_tables() == before.spec_tables());
                        assert(ctx_key(d) != ctx_key(c));
                        assert(self.children_of(d) == before.children_of(d));
                    } else {
                        let k = choose|k: nat| self.spec_tables() == rounds_applied(before.spec_tables(), c, before.scope_of(c), k);
                        assert(ctx_key(d) != ctx_key(c) || before.scope_of(c) == Scope::Sequence);
                        lemma_rounds_keep(before.spec_tables(), c, before.scope_of(c), k, d);
                        lemma_first_column_trans(o.spec_tables(), before.spec_tables(), self.spec_tables(), d);
                        assert(self.children_of(d) == before.children_of(d));
                    }
                }
            }
            i = i + 1;
        }
        let ghost t1 = self.spec_tables();
        let start = self.playhead();
        let mut counters: Vec<Length> = Vec::new();
        let mut i: usize = 0;
        while i < ctxs.len()
            invariant
                self.wf(),
                i <= ctxs@.len(),
                o == *old(self),
                self.spec_parents() == o.spec_parents(),
                q_ratio(len_q(start)).1 > 0 ==> times_from(o.spec_timeline(), self.spec_timeline(), start),
                counters@.len() == i,
                forall|j: int| 0 <= j < i ==> (#[trigger] counters@[j]) is MicroSeconds,
                q_ratio(len_q(start)).1 > 0 ==> forall|j: int| 0 <= j < i ==> q_value_le(len_q(start), len_q(#[trigger] counters@[j])),
                self.same_reader(old(self)),
                self.spec_ctx_count() == old(self).spec_ctx_count(),
                self.spec_scopes() == old(self).spec_scopes(),
                self.spec_tables() == t1,
                start == o.spec_playhead(),
                voices_fit(o, ctxs@) ==> t1 == o.spec_tables(),
                ctxs@.len() == 0 ==> *self == o,
                tree_shrunk(o, *self),
                forall|m: int| 0 <= m < ctxs@.len() && #[trigger] voice(o, ctxs@[m]) ==> first_column_kept(
                    o.spec_tables(),
                    t1,
                    ctxs@[m],
                ),
                forall|m: int| 0 <= m < i && #[trigger] voice(o, ctxs@[m]) ==> (emitted_end(len_q(start), Seq::empty(), 0) matches Some(
                    at,
                ) && plays(self.spec_timeline(), at, t1, ctxs@[m], 0)),
                forall|m: int| 0 <= m < i ==> #[trigger] voice_laid(self.spec_timeline(), start, t1, ctxs@[m]),
                forall|m: int| 0 <= m < i ==> #[trigger] counter_ends(counters@[m], start, t1, ctxs@[m]),
            decreases ctxs@.len() - i,
        {
            let ghost before = *self;
            proof {
                if voices_fit(o, ctxs@) {
                    assert(voice_fits(o, ctxs@[0], ctxs@[i as int]));
                    assert(before.spec_lengths() == o.spec_lengths());
                    assert(before.column_count(ctxs@[i as int]) == o.column_count(ctxs@[i as int]));
                }
            }
            let columns = self.sequence_columns(ctxs[i], start);
            proof {
                if q_ratio(len_q(start)).1 > 0 {
                    lemma_times_trans(o.spec_timeline(), before.spec_timeline(), self.spec_timeline(), start);
                }
                lemma_tree_shrunk_same(before, *self);
                lemma_tree_shrunk_trans(o, before, *self);
            }
            match columns {
                Some(e) => {
                    proof {
                        assert(before.column_count(ctxs@[i as int]) == columns_in(t1, ctxs@[i as int]));
                        if q_ratio(len_q(start)).1 > 0 {
                            let rs = rows_or_empty(before.spec_lengths(), ctxs@[i as int]);
                            let q = emitted_end(len_q(start), rs, before.column_count(ctxs@[i as int]))->0;
                            lemma_emitted_end_after(len_q(start), rs, before.column_count(ctxs@[i as int]));
                            lemma_stands_after(len_q(start), q, e);
                        }
                    }
                    counters.push(e);
                },
                None => {
                    return false;
                },
            }
            proof {
                assert(before.column_count(ctxs@[i as int]) == columns_in(t1, ctxs@[i as int]));
                assert forall|m: int| 0 <= m < i + 1 implies #[trigger] voice_laid(self.spec_timeline(), start, t1, ctxs@[m]) by {
                    let d = ctxs@[m];
                    assert forall|k: int| 0 <= k < columns_in(t1, d) implies (#[trigger] emitted_end(len_q(start), rows_or_empty(t1.lengths, d), k as nat)
                        matches Some(at) && plays(self.spec_timeline(), at, t1, d, k)) by {
                        if m < i {
                            assert(voice_laid(before.spec_timeline(), start, t1, d));
                            let at = emitted_end(len_q(start), rows_or_empty(t1.lengths, d), k as nat)->0;
                            lemma_keeps_plays(before.spec_timeline(), self.spec_timeline(), at, t1, d, k);
                        }
                    }
                }
                assert forall|m: int| 0 <= m < i + 1 implies #[trigger] counter_ends(counters@[m], start, t1, ctxs@[m]) by {
                    if m < i {
                        assert(counters@[m] == counters@.drop_last()[m]);
                    }
                }
                assert forall|m: int| 0 <= m < i + 1 && #[trigger] voice(o, ctxs@[m]) implies (emitted_end(
                    len_q(start),
                    Seq::empty(),
                    0,
                ) matches Some(at) && plays(self.spec_timeline(), at, t1, ctxs@[m], 0)) by {
                    let d = ctxs@[m];
                    let at = emitted_end(len_q(start), Seq::empty(), 0)->0;
                    if m < i {
                        lemma_keeps_plays(before.spec_timeline(), self.spec_timeline(), at, t1, d, 0);
                    } else {
                        assert(rows_or_empty(t1.pcs, d).len() > 0);
                        assert(rows_or_empty(t1.lengths, d).len() > 0);
                        assert(rows_or_empty(t1.velocities, d).len() > 0);
                        assert(rows_or_empty(t1.tempos, d).len() > 0);
                        assert(rows_or_empty(t1.registers, d).len() > 0);
                        assert(rows_or_empty(t1.programs, d).len() > 0);
                        assert(before.column_count(d) > 0);
                        let rs_d = rows_or_empty(before.spec_lengths(), d);
                        let k0: int = 0;
                        assert(0 <= k0 < before.column_count(d));
                        assert(emitted_end(len_q(start), rs_d, k0 as nat) matches Some(at0) && plays(
                            self.spec_timeline(),
                            at0,
                            before.spec_tables(),
                            d,
                            k0,
                        ));
                        assert(emitted_end(len_q(start), rs_d, k0 as nat) == emitted_end(len_q(start), Seq::empty(), 0));
                    }
                }
            }
            i = i + 1;
        }
        let mut m = Length::default();
        let ghost mut mi: int = 0;
        if counters.len() > 0 {
            m = counters[0];
            let mut j: usize = 1;
            while j < counters.len()
                invariant
                    1 <= j <= counters@.len(),
                    0 <= mi < j,
                    m == counters@[mi],
                    forall|k: int| 0 <= k < j ==> q_value_le(len_q(m), len_q(#[trigger] counters@[k])),
                    counters@.len() == ctxs@.len(),
                    forall|k: int| 0 <= k < counters@.len() ==> #[trigger] counter_ends(counters@[k], start, t1, ctxs@[k]),
                    m is MicroSeconds,
                    forall|k: int| 0 <= k < counters@.len() ==> (#[trigger] counters@[k]) is MicroSeconds,
                    q_ratio(len_q(start)).1 > 0 ==> forall|k: int| 0 <= k < counters@.len() ==> q_value_le(len_q(start), len_q(#[trigger] counters@[k])),
                    q_ratio(len_q(start)).1 > 0 ==> q_value_le(len_q(start), len_q(m)),
                decreases counters@.len() - j,
            {
                let ghost m0 = m;
                proof {
                    assert(counter_ends(counters@[j as int], start, t1, ctxs@[j as int]));
                    assert(counter_ends(counters@[mi], start, t1, ctxs@[mi]));
                }
                if !m.ord_le(&counters[j]) {
                    m = counters[j];
                    proof {
                        mi = j as int;
                        assert forall|k: int| 0 <= k < j + 1 implies q_value_le(len_q(m), len_q(#[trigger] counters@[k])) by {
                            if k < j {
                                assert(counter_ends(counters@[k], start, t1, ctxs@[k]));
                                lemma_q_le_trans(len_q(m), len_q(m0), len_q(counters@[k]));
                            }
                        }
                    }
                }
                j = j + 1;
            }
        }
        proof {
            if counters@.len() > 0 {
                assert(counter_ends(counters@[mi], start, t1, ctxs@[mi]));
                assert forall|k: int| 0 <= k < ctxs@.len() implies #[trigger] no_later(m, start, t1, ctxs@[k]) by {
                    assert(counter_ends(counters@[k], start, t1, ctxs@[k]));
                    assert(q_value_le(len_q(m), len_q(counters@[k])));
                    lemma_le_stands_upper(len_q(m), counters@[k], voice_end(start, t1, ctxs@[k])->0);
                }
            }
        }
        let ghost before_playhead = *self;
        self.set_playhead(m);
        proof {
            lemma_tree_shrunk_same(before_playhead, *self);
            lemma_tree_shrunk_trans(o, before_playhead, *self);
        }
        let ghost tl = self.spec_timeline();
        let ghost mh = m;
        let ghost ps = self.spec_parents();
        let ghost laid = ctxs@.len() > 0 ==> laid_out(o, *self, ctxs@, t1);
        proof {
            assert(ps == o.spec_parents());
            if ctxs@.len() > 0 {
                assert(counter_ends(mh, start, t1, ctxs@[mi]));
                assert(laid_out(o, *self, ctxs@, t1));
            }
        }
        let mut i: usize = 0;
        while i < ctxs.len()
            invariant
                self.wf(),
                i <= ctxs@.len(),
                self.spec_playhead() is MicroSeconds,
                self.spec_playhead() == mh,
                ctxs@.len() > 0 && q_ratio(len_q(o.spec_playhead())).1 > 0 ==> q_value_le(len_q(o.spec_playhead()), len_q(mh)),
                self.same_reader(old(self)),
                self.spec_ctx_count() == old(self).spec_ctx_count(),
                self.spec_scopes() == old(self).spec_scopes(),
                self.spec_timeline() == tl,
                ctxs@.len() == 0 ==> tl == o.spec_timeline() && self.spec_tables() == o.spec_tables() && self.spec_playhead()
                    == Length::MicroSeconds(Fraction { numer: 0, denom: 1 }),
                tree_shrunk(o, *self),
                forall|j: int| 0 <= j < i ==> pruned(*self, #[trigger] ctxs@[j]),
                ps == o.spec_parents(),
                forall|j: int| 0 <= j < i ==> !self.children_of(parent_in(ps, ctxs@[j])).contains(#[trigger] ctxs@[j]),
                forall|j: int| i <= j < ctxs@.len() ==> self.parent_of(#[trigger] ctxs@[j]) == parent_in(ps, ctxs@[j]) || exists|k: int| 0 <= k < i && ctxs@[k] == ctxs@[j],
                laid,
                laid ==> (ctxs@.len() > 0 ==> laid_out(o, *self, ctxs@, t1)),
                q_ratio(len_q(o.spec_playhead())).1 > 0 ==> times_from(o.spec_timeline(), tl, o.spec_playhead()),
            decreases ctxs@.len() - i,
        {
            let ghost before = *self;
            self.drop(ctxs[i]);
            proof {
                lemma_drop_unlinks(before, *self, ctxs@[i as int]);
                assert forall|j: int| 0 <= j < i + 1 implies !self.children_of(parent_in(ps, ctxs@[j])).contains(#[trigger] ctxs@[j]) by {
                    if j < i {
                        lemma_drop_keeps_out(before, *self, ctxs@[i as int], parent_in(ps, ctxs@[j]), ctxs@[j]);
                    } else if before.parent_of(ctxs@[j]) != parent_in(ps, ctxs@[j]) {
                        let k = choose|k: int| 0 <= k < i && ctxs@[k] == ctxs@[j];
                        lemma_drop_keeps_out(before, *self, ctxs@[i as int], parent_in(ps, ctxs@[k]), ctxs@[k]);
                    }
                }
                assert forall|j: int| i + 1 <= j < ctxs@.len() implies self.parent_of(#[trigger] ctxs@[j]) == parent_in(ps, ctxs@[j])
                    || exists|k: int| 0 <= k < i + 1 && ctxs@[k] == ctxs@[j] by {
                    crate::compiler::codegen::state::lemma_ctx_key_injective(ctxs@[j], ctxs@[i as int]);
                    if ctxs@[j] == ctxs@[i as int] {
                        assert(0 <= i < i + 1 && ctxs@[i as int] == ctxs@[j]);
                    } else if before.parent_of(ctxs@[j]) != parent_in(ps, ctxs@[j]) {
                        let k = choose|k: int| 0 <= k < i && ctxs@[k] == ctxs@[j];
                        assert(0 <= k < i + 1 && ctxs@[k] == ctxs@[j]);
                    }
                }
                lemma_drop_shrinks(before, *self, ctxs@[i as int]);
                lemma_tree_shrunk_trans(o, before, *self);
            }
            i = i + 1;
        }
        proof {
            assert forall|k: int| 0 <= k < ctxs@.len() && #[trigger] voice(o, ctxs@[k]) implies (emitted_end(
                len_q(o.spec_playhead()),
                Seq::empty(),
                0,
            ) matches Some(at) && plays(self.spec_timeline(), at, o.spec_tables(), ctxs@[k], 0)) by {
                let d = ctxs@[k];
                let at = emitted_end(len_q(start), Seq::empty(), 0)->0;
                assert(o.column_count(d) > 0);
                lemma_plays_first_column(self.spec_timeline(), at, o.spec_tables(), t1, d);
            }
        }
        true
    }

    /// Sequences a context. A stack has its children combined, or itself
    /// when it has none; a sequence has each of its children sequenced in
    /// turn, first to last; any other context, and a sequence without
    /// children, is left as it is. Returns `false` when some combining
    /// fails.
    pub fn sequence(&mut self, ctx: Ctx) -> (r: bool)
        requires
            old(self).wf(),
        ensures
            final(self).wf(),
            final(self).same_reader(old(self)),
            tree_shrunk(*old(self), *final(self)),
            !(numbered(ctx) && (old(self).scope_of(ctx) == Scope::Stack || old(self).scope_of(ctx) == Scope::Sequence)) ==> *final(self) == *old(self) && r,
            numbered(ctx) && old(self).scope_of(ctx) == Scope::Stack ==> stack_combined(*old(self), *final(self), ctx, r),
            numbered(ctx) && old(self).scope_of(ctx) == Scope::Sequence ==> exists|ss: Seq<State>, rs: Seq<bool>|
                #[trigger] children_sequenced(*old(self), *final(self), old(self).children_of(ctx), ss, rs, r),
        decreases depth_left(ctx),
    {
        let is_ctx = match ctx {
            Ctx::Root => true,
            Ctx::Id(n) => n >= 1,
            Ctx::Nothing => false,
        };
        let scope = self.scope(ctx);
        if is_ctx && scope == Scope::Stack {
            let ghost o = *self;
            let children = self.children(ctx);
            if children.len() > 0 {
                let ghost cs = children@;
                let r = self.combine_sequences(children);
                proof {
                    if r {
                        let t = choose|t: Tables| #[trigger] laid_out(o, *self, cs, t);
                        assert(laid_out(o, *self, o.children_of(ctx), t));
                        assert(laid_out_some(o, *self, o.children_of(ctx)));
                    }
                    assert(stack_combined(o, *self, ctx, r));
                }
                r
            } else {
                let one = vec![ctx];
                proof {
                    assert(one@ =~= seq![ctx]);
                }
                let r = self.combine_sequences(one);
                proof {
                    if r {
                        let t = choose|t: Tables| #[trigger] laid_out(o, *self, seq![ctx], t);
                        assert(laid_out(o, *self, seq![ctx], t));
                        assert(laid_out_some(o, *self, seq![ctx]));
                    }
                    assert(stack_combined(o, *self, ctx, r));
                }
                r
            }
        } else if is_ctx && scope == Scope::Sequence {
            let children = self.children(ctx);
            let ghost o = *self;
            let ghost mut ss: Seq<State> = seq![*self];
            let ghost mut rs: Seq<bool> = Seq::empty();
            let mut ok = true;
            let mut i: usize = 0;
            proof {
                lemma_tree_shrunk_refl(*self);
            }
            while i < children.len()
                invariant
                    self.wf(),
                    i <= children@.len(),
                    children@ == o.children_of(ctx),
                    forall|j: int| 0 <= j < children@.len() ==> rank(#[trigger] children@[j]) > rank(ctx),
                    self.same_reader(&o),
                    tree_shrunk(o, *self),
                    ss.len() == i + 1,
                    rs.len() == i,
                    ss[0] == o,
                    ss[i as int] == *self,
                    forall|j: int| 0 <= j < i ==> #[trigger] child_sequenced(ss[j], ss[j + 1], children@[j], rs[j]),
                    ok == (forall|j: int| 0 <= j < i ==> #[trigger] rs[j]),
                decreases children@.len() - i,
            {
                let ghost before = *self;
                let c = children[i];
                let ri = self.sequence(c);
                let ghost rs0 = rs;
                proof {
                    lemma_tree_shrunk_trans(o, before, *self);
                    assert(child_sequenced(before, *self, c, ri));
                    ss = ss.push(*self);
                    rs = rs.push(ri);
                    assert forall|j: int| 0 <= j < i + 1 implies #[trigger] child_sequenced(ss[j], ss[j + 1], children@[j], rs[j]) by {
                        if j < i {
                            assert(ss[j] == ss.drop_last()[j]);
                        }
                    }
                }
                let ghost ok0 = ok;
                ok = ok && ri;
                proof {
                    assert(rs[i as int] == ri);
                    if ok {
                        assert forall|j: int| 0 <= j < i + 1 implies #[trigger] rs[j] by {
                            if j < i {
                                assert(rs0[j]);
                            }
                        }
                    } else if ri {
                        let j0 = choose|j: int| 0 <= j < i && !#[trigger] rs0[j];
                        assert(!rs[j0]);
                    }
                }
                i = i + 1;
            }
            proof {
                assert(children_sequenced(o, *self, o.children_of(ctx), ss, rs, ok));
            }
            ok
        } else {
            proof {
                lemma_tree_shrunk_same(*self, *self);
            }
            true
        }
    }
}

/// A context that `sequence` works on: the root or a numbered context other
/// than the first.
pub open spec fn numbered(c: Ctx) -> bool {
    c == Ctx::Root || (c is Id && c->0 >= 1)
}

/// What combining the stack `st` does, from `a` to `b` with result `r`: the
/// children of `st` are combined, or `st` itself when it has none; when
/// each fits, `r` holds; when `r` holds, each of them is gone and no longer
/// among the children of its parent, they are laid out on the timeline from
/// the playhead of `a` (`laid_out`), no time before that playhead is added,
/// and the playhead does not move back.
pub open spec fn stack_combined(a: State, b: State, st: Ctx, r: bool) -> bool {
    let cs = if a.children_of(st).len() > 0 { a.children_of(st) } else { seq![st] };
    &&& voices_fit(a, cs) ==> r
    &&& r ==> q_value_le(len_q(a.spec_playhead()), len_q(b.spec_playhead()))
    &&& r ==> laid_out_some(a, b, cs)
    &&& r ==> times_from(a.spec_timeline(), b.spec_timeline(), a.spec_playhead())
    &&& r ==> forall|i: int| 0 <= i < cs.len() ==> pruned(b, #[trigger] cs[i])
    &&& r ==> forall|i: int| 0 <= i < cs.len() ==> !b.children_of(a.parent_of(cs[i])).contains(#[trigger] cs[i])
    &&& r ==> forall|i: int| 0 <= i < cs.len() && #[trigger] voice(a, cs[i]) ==> (emitted_end(
        len_q(a.spec_playhead()),
        Seq::empty(),
        0,
    ) matches Some(at) && plays(b.spec_timeline(), at, a.spec_tables(), cs[i], 0))
}

/// `c` is gone from `s`: no entry in the arena, no parameter rows, no
/// bindings and no parent.
pub open spec fn pruned(s: State, c: Ctx) -> bool {
    &&& !s.spec_ctxs().contains(ctx_key(c))
    &&& !s.spec_pcs().contains_key(ctx_key(c))
    &&& !s.spec_lengths().contains_key(ctx_key(c))
    &&& !s.spec_velocities().contains_key(ctx_key(c))
    &&& !s.spec_registers().contains_key(ctx_key(c))
    &&& !s.spec_tempos().contains_key(ctx_key(c))
    &&& !s.spec_programs().contains_key(ctx_key(c))
    &&& !s.spec_bindings().contains_key(ctx_key(c))
    &&& !s.spec_parents().contains_key(ctx_key(c))
}

/// The children `ch` of a sequence sequenced one after the other, from `a`
/// to `b`: `ss` are the states between, first `a` and last `b`, `rs` what
/// each gave, and `r` holds when all of them do.
pub open spec fn children_sequenced(a: State, b: State, ch: Seq<Ctx>, ss: Seq<State>, rs: Seq<bool>, r: bool) -> bool {
    &&& ss.len() == ch.len() + 1
    &&& rs.len() == ch.len()
    &&& ss[0] == a
    &&& ss[ch.len() as int] == b
    &&& forall|j: int| 0 <= j < ch.len() ==> #[trigger] child_sequenced(ss[j], ss[j + 1], ch[j], rs[j])
    &&& r == (forall|j: int| 0 <= j < ch.len() ==> #[trigger] rs[j])
}

/// What `sequence` does to the child `c` of a sequence, from `a` to `b` with
/// result `r`: the tree only shrinks; a stack is combined; a context that is
/// neither a stack nor a sequence is left as it is.
pub open spec fn child_sequenced(a: State, b: State, c: Ctx, r: bool) -> bool {
    &&& tree_shrunk(a, b)
    &&& numbered(c) && a.scope_of(c) == Scope::Stack ==> stack_combined(a, b, c, r)
    &&& !(numbered(c) && (a.scope_of(c) == Scope::Stack || a.scope_of(c) == Scope::Sequence)) ==> b == a && r
}

/// The number of whole columns of `c` in the tables `t`: the fewest rows of
/// any of its parameters.
pub open spec fn columns_in(t: Tables, c: Ctx) -> nat {
    let a = rows_or_empty(t.lengths, c).len();
    let b = rows_or_empty(t.pcs, c).len();
    let r = rows_or_empty(t.registers, c).len();
    let d = rows_or_empty(t.velocities, c).len();
    let e = rows_or_empty(t.tempos, c).len();
    let f = rows_or_empty(t.programs, c).len();
    let m1 = if b < a { b } else { a };
    let m2 = if r < m1 { r } else { m1 };
    let m3 = if d < m2 { d } else { m2 };
    let m4 = if e < m3 { e } else { m3 };
    if f < m4 { f } else { m4 }
}

/// Every column `k` of `c` in `t` plays on `tl` where the lengths of the
/// columns before it, counted from `start`, end.
pub open spec fn voice_laid(tl: Seq<(Length, Seq<Slice>)>, start: Length, t: Tables, c: Ctx) -> bool {
    forall|k: int| 0 <= k < columns_in(t, c) ==> (#[trigger] emitted_end(len_q(start), rows_or_empty(t.lengths, c), k as nat)
        matches Some(at) && plays(tl, at, t, c, k))
}

/// Where the columns of `c` in `t`, counted from `start`, end.
pub open spec fn voice_end(start: Length, t: Tables, c: Ctx) -> Option<LenQ> {
    emitted_end(len_q(start), rows_or_empty(t.lengths, c), columns_in(t, c))
}

/// `e` is a duration, in lowest form or not, that stands for where the
/// columns of `c` in `t` end.
pub open spec fn counter_ends(e: Length, start: Length, t: Tables, c: Ctx) -> bool {
    &&& voice_end(start, t, c) matches Some(q)
    &&& stands_for(e, voice_end(start, t, c)->0)
    &&& e is MicroSeconds
    &&& e.spec_ratio().wf()
}

/// `e` is no later than where the columns of `c` in `t` end.
pub open spec fn no_later(e: Length, start: Length, t: Tables, c: Ctx) -> bool {
    voice_end(start, t, c) matches Some(q) && q_value_le(len_q(e), q)
}

/// How `combine_sequences` lays out `cs` from `o` to `n`, with `t` the tables
/// once each voice is repeated: the first column of each voice is as it was,
/// every column of each voice plays where the columns before it end,
/// counted from the old playhead, and the new playhead is where some voice
/// ends and no later than where any of them ends.
pub open spec fn laid_out(o: State, n: State, cs: Seq<Ctx>, t: Tables) -> bool {
    &&& forall|i: int| 0 <= i < cs.len() && #[trigger] voice(o, cs[i]) ==> first_column_kept(o.spec_tables(), t, cs[i])
    &&& forall|i: int| 0 <= i < cs.len() ==> #[trigger] voice_laid(n.spec_timeline(), o.spec_playhead(), t, cs[i])
    &&& exists|j: int| 0 <= j < cs.len() && #[trigger] counter_ends(n.spec_playhead(), o.spec_playhead(), t, cs[j])
    &&& forall|i: int| 0 <= i < cs.len() ==> #[trigger] no_later(n.spec_playhead(), o.spec_playhead(), t, cs[i])
}

/// Comparing numbers is transitive when the denominators are positive.
proof fn lemma_q_le_trans(a: LenQ, b: LenQ, c: LenQ)
    requires
        q_ratio(a).1 > 0,
        q_ratio(b).1 > 0,
        q_ratio(c).1 > 0,
        q_value_le(a, b),
        q_value_le(b, c),
    ensures
        q_value_le(a, c),
{
    let (an, ad) = q_ratio(a);
    let (bn, bd) = q_ratio(b);
    let (cn, cd) = q_ratio(c);
    assert(an * cd * bd <= cn * ad * bd) by (nonlinear_arith)
        requires an * bd <= bn * ad, bn * cd <= cn * bd, ad > 0, bd > 0, cd > 0;
    assert(an * cd <= cn * ad) by (nonlinear_arith)
        requires an * cd * bd <= cn * ad * bd, bd > 0;
}

/// A number no later than a duration is no later than what it stands for.
proof fn lemma_le_stands_upper(m: LenQ, e: Length, q: LenQ)
    requires
        q_ratio(m).1 > 0,
        q_value_le(m, len_q(e)),
        stands_for(e, q),
        e is MicroSeconds,
        e.spec_ratio().denom > 0,
    ensures
        q_value_le(m, q),
{
    let (mn, md) = q_ratio(m);
    let (en, ed) = q_ratio(len_q(e));
    let (qn, qd) = q_ratio(q);
    assert(ed == e.spec_ratio().denom && en == e.spec_ratio().numer);
    assert(qd > 0);
    assert(en * qd == qn * ed);
    assert(mn * qd <= qn * md) by (nonlinear_arith)
        requires mn * ed <= en * md, en * qd == qn * ed, qd > 0, ed > 0, md > 0;
}

/// Every time of `n` is a time of `o`, or no earlier than `start`.
pub open spec fn times_from(o: Seq<(Length, Seq<Slice>)>, n: Seq<(Length, Seq<Slice>)>, start: Length) -> bool {
    forall|p: int|
        #![trigger n[p]]
        0 <= p < n.len() ==> (exists|p0: int| 0 <= p0 < o.len() && #[trigger] o[p0].0 == n[p].0) || q_value_le(len_q(start), len_q(n[p].0))
}

proof fn lemma_times_refl(o: Seq<(Length, Seq<Slice>)>, start: Length)
    ensures
        times_from(o, o, start),
{
    assert forall|p: int| #![trigger o[p]] 0 <= p < o.len() implies (exists|p0: int| 0 <= p0 < o.len() && #[trigger] o[p0].0 == o[p].0)
        || q_value_le(len_q(start), len_q(o[p].0)) by {
        assert(o[p].0 == o[p].0);
    }
}

proof fn lemma_times_trans(a: Seq<(Length, Seq<Slice>)>, b: Seq<(Length, Seq<Slice>)>, c: Seq<(Length, Seq<Slice>)>, start: Length)
    requires
        times_from(a, b, start),
        times_from(b, c, start),
    ensures
        times_from(a, c, start),
{
    assert forall|p: int| #![trigger c[p]] 0 <= p < c.len() implies (exists|p0: int| 0 <= p0 < a.len() && #[trigger] a[p0].0 == c[p].0)
        || q_value_le(len_q(start), len_q(c[p].0)) by {
        if !q_value_le(len_q(start), len_q(c[p].0)) {
            let p1 = choose|p1: int| 0 <= p1 < b.len() && #[trigger] b[p1].0 == c[p].0;
            assert(b[p1].0 == c[p].0);
        }
    }
}

/// Inserting a slice no earlier than `start` adds no time before it.
proof fn lemma_insert_times(o: Seq<(Length, Seq<Slice>)>, tl: Seq<(Length, Seq<Slice>)>, at: Length, s: Slice, r: Seq<(Length, Seq<Slice>)>, start: Length)
    requires
        times_from(o, tl, start),
        timeline_inserted(tl, at, s, r),
        q_value_le(len_q(start), len_q(at)),
    ensures
        times_from(o, r, start),
{
    let p = choose|p: int| #[trigger] is_place(tl, at, p) && (if p < tl.len() && tl[p].0.spec_ratio().spec_same(at.spec_ratio()) {
        r == tl.update(p, (tl[p].0, tl[p].1.push(s)))
    } else {
        r == tl.insert(p, (at, seq![s]))
    });
    assert forall|i: int| #![trigger r[i]] 0 <= i < r.len() implies (exists|p0: int| 0 <= p0 < o.len() && #[trigger] o[p0].0 == r[i].0)
        || q_value_le(len_q(start), len_q(r[i].0)) by {
        if p < tl.len() && tl[p].0.spec_ratio().spec_same(at.spec_ratio()) {
            assert(r[i].0 == tl[i].0);
            assert(tl[i] == tl[i]);
        } else if i < p {
            assert(r[i] == tl[i]);
        } else if i > p {
            assert(r[i] == tl[i - 1]);
        } else {
            assert(r[i].0 == at);
        }
    }
}

/// `cs` are laid out from `o` to `n` with some tables once repeated.
pub open spec fn laid_out_some(o: State, n: State, cs: Seq<Ctx>) -> bool {
    exists|t: Tables| #[trigger] laid_out(o, n, cs, t)
}

/// `c` is gone from the children of its parent once it is dropped.
proof fn lemma_drop_unlinks(a: State, b: State, c: Ctx)
    requires
        b.spec_children() == ({
            let c1 = a.spec_children().remove(ctx_key(c));
            let p = a.parent_of(c);
            if c1.contains_key(ctx_key(p)) {
                c1.insert(ctx_key(p), without_ctx(c1[ctx_key(p)], c))
            } else {
                c1
            }
        }),
    ensures
        !b.children_of(a.parent_of(c)).contains(c),
{
    let p = a.parent_of(c);
    let c1 = a.spec_children().remove(ctx_key(c));
    if c1.contains_key(ctx_key(p)) {
        lemma_without_ctx_drops(c1[ctx_key(p)], c);
    }
}

/// Dropping `d` puts no context back among the children of `p`.
proof fn lemma_drop_keeps_out(a: State, b: State, d: Ctx, p: Ctx, x: Ctx)
    requires
        !a.children_of(p).contains(x),
        b.spec_children() == ({
            let c1 = a.spec_children().remove(ctx_key(d));
            let q = a.parent_of(d);
            if c1.contains_key(ctx_key(q)) {
                c1.insert(ctx_key(q), without_ctx(c1[ctx_key(q)], d))
            } else {
                c1
            }
        }),
    ensures
        !b.children_of(p).contains(x),
{
    let q = a.parent_of(d);
    let c1 = a.spec_children().remove(ctx_key(d));
    if c1.contains_key(ctx_key(q)) && ctx_key(q) == ctx_key(p) {
        lemma_without_ctx_keeps_out(c1[ctx_key(q)], d, x);
    }
}

/// `without_ctx` leaves out `c` itself.
proof fn lemma_without_ctx_drops(l: Seq<Ctx>, c: Ctx)
    ensures
        !without_ctx(l, c).contains(c),
    decreases l.len(),
{
    if l.len() > 0 {
        lemma_without_ctx_drops(l.drop_last(), c);
        let rest = without_ctx(l.drop_last(), c);
        if !ctx_eq(l.last(), c) {
            assert(l.last() != c);
            assert forall|k: int| 0 <= k < rest.push(l.last()).len() implies rest.push(l.last())[k] != c by {
                if k < rest.len() {
                    assert(rest.push(l.last())[k] == rest[k]);
                }
            }
        }
    }
}

/// `without_ctx` adds nothing.
proof fn lemma_without_ctx_keeps_out(l: Seq<Ctx>, c: Ctx, x: Ctx)
    requires
        !l.contains(x),
    ensures
        !without_ctx(l, c).contains(x),
    decreases l.len(),
{
    if l.len() > 0 {
        assert(!l.drop_last().contains(x)) by {
            if l.drop_last().contains(x) {
                let k = choose|k: int| 0 <= k < l.drop_last().len() && l.drop_last()[k] == x;
                assert(l[k] == x);
            }
        }
        lemma_without_ctx_keeps_out(l.drop_last(), c, x);
        let rest = without_ctx(l.drop_last(), c);
        assert(l.last() != x) by {
            assert(l[l.len() - 1] == l.last());
        }
        assert forall|k: int| 0 <= k < rest.push(l.last()).len() implies rest.push(l.last())[k] != x by {
            if k < rest.len() {
                assert(rest.push(l.last())[k] == rest[k]);
            }
        }
    }
}

/// The leaves under `c`, in order: `c` itself when it has no children.
pub open spec fn leaves(s: State, c: Ctx) -> Seq<Ctx>
    decreases depth_left(c), 1int, 0int,
{
    let ch = s.children_of(c);
    if ch.len() == 0 {
        seq![c]
    } else {
        leaves_list(s, c, ch)
    }
}

/// The leaves under the contexts `l`, children of `p`, in order.
pub open spec fn leaves_list(s: State, p: Ctx, l: Seq<Ctx>) -> Seq<Ctx>
    decreases depth_left(p), 0int, l.len(),
{
    if l.len() == 0 {
        Seq::empty()
    } else {
        leaves_list(s, p, l.drop_last()) + if rank(l.last()) > rank(p) {
            leaves(s, l.last())
        } else {
            Seq::empty()
        }
    }
}

/// The number of pitch rows under `c`: its own when it has no children.
pub open spec fn pc_count(s: State, c: Ctx) -> nat
    decreases depth_left(c), 1int, 0int,
{
    let ch = s.children_of(c);
    if ch.len() == 0 {
        rows_or_empty(s.spec_pcs(), c).len()
    } else {
        pc_count_list(s, c, ch)
    }
}

/// The number of pitch rows under the contexts `l`, children of `p`.
pub open spec fn pc_count_list(s: State, p: Ctx, l: Seq<Ctx>) -> nat
    decreases depth_left(p), 0int, l.len(),
{
    if l.len() == 0 {
        0
    } else {
        pc_count_list(s, p, l.drop_last()) + if rank(l.last()) > rank(p) {
            pc_count(s, l.last())
        } else {
            0
        }
    }
}

/// A prefix of the children counts no more than all of them.
proof fn lemma_pc_count_prefix(s: State, p: Ctx, l: Seq<Ctx>, k: int)
    requires
        0 <= k <= l.len(),
    ensures
        pc_count_list(s, p, l.take(k)) <= pc_count_list(s, p, l),
    decreases l.len() - k,
{
    if k < l.len() {
        assert(l.take(k + 1).drop_last() =~= l.take(k));
        lemma_pc_count_prefix(s, p, l, k + 1);
    } else {
        assert(l.take(k) =~= l);
    }
}

impl State {
    /// The leaves under `ctx`, in order: `ctx` itself when it has no children.
    pub fn get_leaves(&self, ctx: Ctx) -> (r: Vec<Ctx>)
        requires
            self.wf(),
        ensures
            r@ == leaves(*self, ctx),
        decreases depth_left(ctx),
    {
        let ch = self.children(ctx);
        if ch.len() == 0 {
            let v = vec![ctx];
            proof { assert(v@ =~= seq![ctx]); }
            v
        } else {
            let mut out: Vec<Ctx> = Vec::new();
            let mut i: usize = 0;
            proof {
                assert(ch@.take(0) =~= Seq::<Ctx>::empty());
            }
            while i < ch.len()
                invariant
                    self.wf(),
                    i <= ch@.len(),
                    ch@ == self.children_of(ctx),
                    forall|j: int| 0 <= j < ch@.len() ==> rank(#[trigger] ch@[j]) > rank(ctx),
                    out@ == leaves_list(*self, ctx, ch@.take(i as int)),
                decreases ch@.len() - i,
            {
                proof {
                    assert(ch@.take(i + 1).drop_last() =~= ch@.take(i as int));
                    assert(ch@.take(i + 1).last() == ch@[i as int]);
                }
                let mut sub = self.get_leaves(ch[i]);
                out.append(&mut sub);
                i = i + 1;
            }
            proof {
                assert(ch@.take(ch@.len() as int) =~= ch@);
            }
            out
        }
    }

    /// The number of pitch rows under `ctx`: its own when it has no children.
    pub fn ctx_pc_count(&self, ctx: Ctx) -> (r: usize)
        requires
            self.wf(),
            pc_count(*self, ctx) <= usize::MAX,
        ensures
            r == pc_count(*self, ctx),
        decreases depth_left(ctx),
    {
        let ch = self.children(ctx);
        if ch.len() == 0 {
            match self.pcs(ctx) {
                Some(v) => {
                    proof { assert(rows(v).len() == v@.len()); }
                    v.len()
                },
                None => 0,
            }
        } else {
            let mut sum: usize = 0;
            let mut i: usize = 0;
            proof {
                assert(ch@.take(0) =~= Seq::<Ctx>::empty());
            }
            while i < ch.len()
                invariant
                    self.wf(),
                    i <= ch@.len(),
                    ch@ == self.children_of(ctx),
                    forall|j: int| 0 <= j < ch@.len() ==> rank(#[trigger] ch@[j]) > rank(ctx),
                    pc_count_list(*self, ctx, ch@) <= usize::MAX,
                    sum == pc_count_list(*self, ctx, ch@.take(i as int)),
                decreases ch@.len() - i,
            {
                proof {
                    assert(ch@.take(i + 1).drop_last() =~= ch@.take(i as int));
                    assert(ch@.take(i + 1).last() == ch@[i as int]);
                    lemma_pc_count_prefix(*self, ctx, ch@, i + 1);
                }
                let x = self.ctx_pc_count(ch[i]);
                sum = sum + x;
                i = i + 1;
            }
            proof {
                assert(ch@.take(ch@.len() as int) =~= ch@);
            }
            sum
        }
    }
}

/// The rows of a table, or none.
fn copy_rows_or_empty<T>(v: Option<Vec<Vec<T>>>) -> (r: Vec<Vec<T>>)
    ensures
        v matches Some(x) ==> rows(r) == rows(x),
        v is None ==> r@.len() == 0,
{
    match v {
        Some(x) => x,
        None => Vec::new(),
    }
}

/// Row `j` of `rs`, going round; no values when there are no rows.
fn round_row_of<T: Copy>(rs: &Vec<Vec<T>>, j: u64) -> (r: Vec<T>)
    ensures
        r@ == round_row(rows(*rs), j as int),
{
    if rs.len() == 0 {
        let e: Vec<T> = Vec::new();
        proof { assert(e@ =~= round_row(rows(*rs), j as int)); }
        e
    } else {
        let idx = (j % (rs.len() as u64)) as usize;
        proof {
            assert(rows(*rs)[idx as int] == rs@[idx as int]@);
        }
        copy_row(&rs[idx])
    }
}

} // verus!
