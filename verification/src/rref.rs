//! Exact Gauss-Jordan elimination over rational matrices, with the proof
//! that every step keeps the solution set of the homogeneous system, and
//! the null-space basis vectors of the reduced matrix.

use crate::error::GugenError;
use crate::frac::{
    add_pair, fits_i128, is_canonical, lemma_reduce, lemma_reduce_canonical, lemma_reduce_self,
    lemma_reduce_zero, mul_pair, reduce, same_value, Frac,
};
use crate::linalg::{
    dens_pos, dot, lemma_add_congr, lemma_dot_den_pos, lemma_dot_elim, lemma_dot_scale,
    lemma_dot_two_terms, lemma_dot_zero_terms, lemma_same_value_trans, qneg, qsub_mul, Q,
};
use vstd::prelude::*;

verus! {

/// The values of a row of `Frac`s.
pub open spec fn fq(s: Seq<Frac>) -> Seq<Q> {
    s.map_values(|f: Frac| f@)
}

/// The rows of a matrix of `Frac`s.
pub open spec fn mview(m: Seq<Vec<Frac>>) -> Seq<Seq<Frac>> {
    m.map_values(|r: Vec<Frac>| r@)
}

/// Every row has `cols` well-formed entries.
pub open spec fn matrix_ok(m: Seq<Seq<Frac>>, cols: int) -> bool {
    &&& forall|r: int| 0 <= r < m.len() ==> #[trigger] m[r].len() == cols
    &&& forall|r: int, c: int| 0 <= r < m.len() && 0 <= c < cols ==> (#[trigger] m[r][c]).wf()
}

/// Reading an entry of a well-formed matrix through its `Vec` rows.
proof fn lemma_matrix_entry(m: Seq<Vec<Frac>>, cols: int, r: int, c: int)
    requires
        matrix_ok(mview(m), cols),
        0 <= r < m.len(),
        0 <= c < cols,
    ensures
        mview(m)[r] == m[r]@,
        m[r]@.len() == cols,
        m[r]@[c].wf(),
{
    assert(mview(m)[r] == m[r]@);
    assert(mview(m)[r][c].wf());
}

/// Every `Vec` row of a well-formed matrix has `cols` entries.
proof fn lemma_matrix_rows(m: Seq<Vec<Frac>>, cols: int)
    requires
        matrix_ok(mview(m), cols),
    ensures
        forall|r: int| 0 <= r < m.len() ==> (#[trigger] m[r])@.len() == cols,
{
    assert forall|r: int| 0 <= r < m.len() implies (#[trigger] m[r])@.len() == cols by {
        assert(mview(m)[r] == m[r]@);
    }
}

/// `v` solves the homogeneous system `m v = 0`.
pub open spec fn solves(m: Seq<Seq<Frac>>, v: Seq<Q>, cols: int) -> bool {
    forall|r: int| 0 <= r < m.len() ==> (#[trigger] dot(fq(m[r]), v, cols)).0 == 0
}

/// A candidate solution vector: `cols` entries with positive denominators.
pub open spec fn candidate(v: Seq<Q>, cols: int) -> bool {
    v.len() == cols && dens_pos(v, cols)
}

/// Every solution of `cur` solves `orig`.
pub open spec fn solutions_preserved(cur: Seq<Seq<Frac>>, orig: Seq<Seq<Frac>>, cols: int) -> bool {
    forall|v: Seq<Q>| candidate(v, cols) && #[trigger] solves(cur, v, cols) ==> solves(orig, v, cols)
}

/// Reduced-row-echelon facts maintained by elimination: column
/// `pivots[k]` is the unit vector `e_k`, and below the pivot rows every
/// entry left of `col` is zero.
pub open spec fn echelon(m: Seq<Seq<Frac>>, pivots: Seq<usize>, col: int) -> bool {
    &&& forall|k: int, j: int| 0 <= k < j < pivots.len() ==> pivots[k] < pivots[j]
    &&& forall|k: int| 0 <= k < pivots.len() ==> #[trigger] pivots[k] < col
    &&& forall|k: int, r: int|
        0 <= k < pivots.len() && 0 <= r < m.len() ==> #[trigger] m[r][pivots[k] as int]@ == (
        if r == k {
            (1int, 1int)
        } else {
            (0int, 1int)
        })
    &&& forall|r: int, c: int|
        pivots.len() <= r < m.len() && 0 <= c < col ==> (#[trigger] m[r][c])@.0 == 0
}

proof fn lemma_row_dens(row: Seq<Frac>, cols: int)
    requires
        row.len() == cols,
        forall|c: int| 0 <= c < cols ==> (#[trigger] row[c]).wf(),
    ensures
        dens_pos(fq(row), cols),
{
    assert forall|c: int| 0 <= c < cols implies (#[trigger] fq(row)[c]).1 > 0 by {
        assert(row[c].wf());
    }
}

/// The row scaled by the reciprocal of `pivot`.
fn scale_row(row: &Vec<Frac>, pivot: Frac) -> (r: Result<Vec<Frac>, GugenError>)
    requires
        pivot.wf(),
        forall|c: int| 0 <= c < row@.len() ==> (#[trigger] row@[c]).wf(),
    ensures
        r is Err ==> r->Err_0 == GugenError::ArithmeticOverflow,
        r is Ok ==> r->Ok_0@.len() == row@.len() && forall|c: int|
            0 <= c < row@.len() ==> (#[trigger] r->Ok_0@[c]).wf() && r->Ok_0@[c]@ == reduce(
                row@[c]@.0 * pivot@.1,
                row@[c]@.1 * pivot@.0,
            ),
        r is Err <==> scale_q(fq(row@), pivot@) is None,
        r is Ok ==> scale_q(fq(row@), pivot@) == Some(fq(r->Ok_0@)),
{
    let ghost rq = fq(row@);
    let mut out: Vec<Frac> = Vec::new();
    let mut c: usize = 0;
    while c < row.len()
        invariant
            c <= row@.len(),
            pivot.wf(),
            rq == fq(row@),
            forall|k: int| 0 <= k < row@.len() ==> (#[trigger] row@[k]).wf(),
            out@.len() == c,
            forall|k: int| 0 <= k < c ==> (#[trigger] out@[k]).wf() && out@[k]@ == reduce(
                row@[k]@.0 * pivot@.1,
                row@[k]@.1 * pivot@.0,
            ),
            forall|k: int| 0 <= k < c ==> !div_fails(#[trigger] rq[k], pivot@),
        decreases row@.len() - c,
    {
        assert(rq[c as int] == row@[c as int]@);
        let x = match row[c].checked_div(pivot) {
            Ok(x) => x,
            Err(e) => {
                assert(div_fails(rq[c as int], pivot@));
                return Err(e);
            },
        };
        out.push(x);
        c = c + 1;
    }
    assert(fq(out@) =~= Seq::new(rq.len(), |k: int| reduce(rq[k].0 * pivot@.1, rq[k].1 * pivot@.0)));
    Ok(out)
}

/// `row - factor * piv`, entrywise, exactly.
fn eliminate_row(row: &Vec<Frac>, factor: Frac, piv: &Vec<Frac>) -> (r: Result<
    Vec<Frac>,
    GugenError,
>)
    requires
        factor.wf(),
        row@.len() == piv@.len(),
        forall|c: int| 0 <= c < row@.len() ==> (#[trigger] row@[c]).wf(),
        forall|c: int| 0 <= c < piv@.len() ==> (#[trigger] piv@[c]).wf(),
    ensures
        r is Err ==> r->Err_0 == GugenError::ArithmeticOverflow,
        r is Ok ==> r->Ok_0@.len() == row@.len() && forall|c: int|
            0 <= c < row@.len() ==> (#[trigger] r->Ok_0@[c]).wf() && r->Ok_0@[c]@ == elim_entry(
                row@[c]@,
                factor@,
                piv@[c]@,
            ),
        r is Err <==> elim_q(fq(row@), factor@, fq(piv@)) is None,
        r is Ok ==> elim_q(fq(row@), factor@, fq(piv@)) == Some(fq(r->Ok_0@)),
{
    let ghost rq = fq(row@);
    let ghost pq = fq(piv@);
    let mut out: Vec<Frac> = Vec::new();
    let mut c: usize = 0;
    while c < row.len()
        invariant
            c <= row@.len(),
            row@.len() == piv@.len(),
            factor.wf(),
            rq == fq(row@),
            pq == fq(piv@),
            forall|k: int| 0 <= k < row@.len() ==> (#[trigger] row@[k]).wf(),
            forall|k: int| 0 <= k < piv@.len() ==> (#[trigger] piv@[k]).wf(),
            out@.len() == c,
            forall|k: int| 0 <= k < c ==> (#[trigger] out@[k]).wf() && out@[k]@ == elim_entry(
                row@[k]@,
                factor@,
                piv@[k]@,
            ),
            forall|k: int| 0 <= k < c ==> !elim_fails(#[trigger] rq[k], factor@, pq[k]),
        decreases row@.len() - c,
    {
        assert(rq[c as int] == row@[c as int]@);
        assert(pq[c as int] == piv@[c as int]@);
        let sub = match factor.checked_mul(piv[c]) {
            Ok(m) => m,
            Err(e) => {
                assert(elim_fails(rq[c as int], factor@, pq[c as int]));
                return Err(e);
            },
        };
        let x = match row[c].checked_sub(sub) {
            Ok(x) => x,
            Err(e) => {
                assert(elim_fails(rq[c as int], factor@, pq[c as int]));
                return Err(e);
            },
        };
        out.push(x);
        c = c + 1;
    }
    assert(fq(out@) =~= Seq::new(rq.len(), |k: int| elim_entry(rq[k], factor@, pq[k])));
    Ok(out)
}

/// The exact result of `x - f * p` as computed by checked `Frac`
/// arithmetic: the product is reduced, then the difference is reduced.
pub open spec fn elim_entry(x: Q, f: Q, p: Q) -> Q {
    let m = reduce(mul_pair(f, p).0, mul_pair(f, p).1);
    reduce(add_pair(x, qneg(m)).0, add_pair(x, qneg(m)).1)
}

/// The positive-denominator reciprocal of a nonzero rational.
pub open spec fn recip(p: Q) -> Q {
    if p.0 > 0 {
        (p.1, p.0)
    } else {
        (-p.1, -p.0)
    }
}

proof fn lemma_scale_entry(x: Q, p: Q)
    requires
        x.1 > 0,
        p.1 > 0,
        p.0 != 0,
    ensures
        x.1 * p.0 != 0,
        same_value(reduce(x.0 * p.1, x.1 * p.0), mul_pair(x, recip(p))),
        recip(p).1 > 0,
        x.0 == 0 ==> reduce(x.0 * p.1, x.1 * p.0) == (0int, 1int),
        x == p ==> reduce(x.0 * p.1, x.1 * p.0) == (1int, 1int),
{
    assert(x.1 * p.0 != 0) by (nonlinear_arith)
        requires x.1 > 0, p.0 != 0;
    lemma_reduce(x.0 * p.1, x.1 * p.0);
    let q = (x.0 * p.1, x.1 * p.0);
    if p.0 > 0 {
        assert(mul_pair(x, recip(p)) == q);
    } else {
        assert(mul_pair(x, recip(p)) == (-1 * q.0, -1 * q.1)) by (nonlinear_arith)
            requires
                mul_pair(x, recip(p)) == (x.0 * -p.1, x.1 * -p.0),
                q == (x.0 * p.1, x.1 * p.0);
        crate::linalg::lemma_scaled_same(q, -1);
        lemma_same_value_trans(reduce(q.0, q.1), q, mul_pair(x, recip(p)));
    }
    if x.0 == 0 {
        assert(x.0 * p.1 == 0) by (nonlinear_arith)
            requires x.0 == 0;
        lemma_reduce_zero(x.1 * p.0);
    }
    if x == p {
        assert(x.0 * p.1 == x.1 * p.0) by (nonlinear_arith)
            requires x == p;
        lemma_reduce_self(x.1 * p.0);
    }
}

proof fn lemma_elim_entry(x: Q, f: Q, p: Q)
    requires
        is_canonical(x),
        is_canonical(f),
        is_canonical(p),
    ensures
        same_value(elim_entry(x, f, p), qsub_mul(x, f, p)),
        p == (0int, 1int) ==> elim_entry(x, f, p) == x,
        (p == (1int, 1int) && x == f) ==> elim_entry(x, f, p) == (0int, 1int),
{
    let mp = mul_pair(f, p);
    assert(mp.1 > 0) by (nonlinear_arith)
        requires mp.1 == f.1 * p.1, f.1 > 0, p.1 > 0;
    lemma_reduce(mp.0, mp.1);
    let m = reduce(mp.0, mp.1);
    let s = add_pair(x, qneg(m));
    assert(s.1 > 0) by (nonlinear_arith)
        requires s.1 == x.1 * m.1, x.1 > 0, m.1 > 0;
    lemma_reduce(s.0, s.1);
    // qneg respects value equality; then addition does.
    assert(same_value(qneg(m), qneg(mp))) by (nonlinear_arith)
        requires same_value(m, mp);
    lemma_add_congr(x, x, qneg(m), qneg(mp));
    lemma_same_value_trans(elim_entry(x, f, p), s, qsub_mul(x, f, p));
    if p == (0int, 1int) {
        assert(mp == (f.0 * 0, f.1 * 1));
        assert(f.0 * 0 == 0 && f.1 * 1 == f.1) by (nonlinear_arith);
        lemma_reduce_zero(f.1);
        assert(m == (0int, 1int));
        assert(s == (x.0 * 1 + 0 * x.1, x.1 * 1));
        assert(x.0 * 1 + 0 * x.1 == x.0 && x.1 * 1 == x.1) by (nonlinear_arith);
        lemma_reduce_canonical(x);
    }
    if p == (1int, 1int) && x == f {
        assert(f.0 * 1 == f.0 && f.1 * 1 == f.1) by (nonlinear_arith);
        lemma_reduce_canonical(f);
        assert(m == f);
        assert(s.0 == x.0 * x.1 + (-x.0) * x.1);
        assert(x.0 * x.1 + (-x.0) * x.1 == 0) by (nonlinear_arith);
        lemma_reduce_zero(s.1);
    }
}

/// The values of a matrix of `Frac`s.
pub open spec fn qm(m: Seq<Seq<Frac>>) -> Seq<Seq<Q>> {
    m.map_values(|r: Seq<Frac>| fq(r))
}

/// Whether `Frac::checked_div` fails on `a / b`.
pub open spec fn div_fails(a: Q, b: Q) -> bool {
    ||| b.0 == 0
    ||| !(fits_i128(a.0 * b.1) && fits_i128(a.1 * b.0))
    ||| (a.1 * b.0 < 0 && (a.0 * b.1 == i128::MIN || a.1 * b.0 == i128::MIN))
}

/// Whether computing `x - f * p` with checked `Frac` arithmetic fails:
/// the product overflows, or the difference with the reduced product does.
pub open spec fn elim_fails(x: Q, f: Q, p: Q) -> bool {
    let m = reduce(mul_pair(f, p).0, mul_pair(f, p).1);
    ||| !(fits_i128(f.0 * p.0) && fits_i128(f.1 * p.1))
    ||| m.0 == i128::MIN
    ||| !(fits_i128(x.0 * m.1) && fits_i128(-m.0 * x.1) && fits_i128(x.0 * m.1 + -m.0 * x.1)
        && fits_i128(x.1 * m.1))
}

/// A row divided by `p`, entry by entry; `None` when a division fails.
pub open spec fn scale_q(row: Seq<Q>, p: Q) -> Option<Seq<Q>> {
    if exists|c: int| 0 <= c < row.len() && #[trigger] div_fails(row[c], p) {
        None
    } else {
        Some(Seq::new(row.len(), |c: int| reduce(row[c].0 * p.1, row[c].1 * p.0)))
    }
}

/// `row - f * piv`, entry by entry; `None` when an entry fails.
pub open spec fn elim_q(row: Seq<Q>, f: Q, piv: Seq<Q>) -> Option<Seq<Q>> {
    if exists|c: int| 0 <= c < row.len() && #[trigger] elim_fails(row[c], f, piv[c]) {
        None
    } else {
        Some(Seq::new(row.len(), |c: int| elim_entry(row[c], f, piv[c])))
    }
}

/// The first row from `from` on with a nonzero entry in column `col`, or
/// the number of rows when there is none.
pub open spec fn first_nonzero(m: Seq<Seq<Q>>, col: int, from: int) -> int
    decreases m.len() - from,
{
    if from >= m.len() {
        m.len() as int
    } else if m[from][col].0 != 0 {
        from
    } else {
        first_nonzero(m, col, from + 1)
    }
}

/// Clearing column `col` with pivot row `p`, from row `r` down: every
/// other row with a nonzero entry there loses that multiple of row `p`.
pub open spec fn clear_from(m: Seq<Seq<Q>>, p: int, col: int, r: int) -> Option<Seq<Seq<Q>>>
    decreases m.len() - r,
{
    if r >= m.len() {
        Some(m)
    } else if r < 0 || r == p || m[r][col].0 == 0 {
        clear_from(m, p, col, r + 1)
    } else {
        match elim_q(m[r], m[r][col], m[p]) {
            None => None,
            Some(nr) => clear_from(m.update(r, nr), p, col, r + 1),
        }
    }
}

/// Gauss-Jordan elimination from column `col` on, with `pivots` found so
/// far: the first row at or below the next pivot row with a nonzero entry
/// in the column is brought up, divided by that entry, and used to clear
/// the column; `None` as soon as an exact step leaves the `i128` range.
pub open spec fn rr_from(m: Seq<Seq<Q>>, pivots: Seq<usize>, col: int, cols: int) -> Option<
    (Seq<Seq<Q>>, Seq<usize>),
>
    decreases cols - col,
{
    if col >= cols || pivots.len() >= m.len() {
        Some((m, pivots))
    } else {
        let p = pivots.len() as int;
        let sel = first_nonzero(m, col, p);
        if sel >= m.len() {
            rr_from(m, pivots, col + 1, cols)
        } else {
            let m1 = m.update(p, m[sel]).update(sel, m[p]);
            match scale_q(m1[p], m1[p][col]) {
                None => None,
                Some(sr) => match clear_from(m1.update(p, sr), p, col, 0) {
                    None => None,
                    Some(m3) => rr_from(m3, pivots.push(col as usize), col + 1, cols),
                },
            }
        }
    }
}

/// The reduced matrix and its pivot columns, or `None` when a step of the
/// elimination overflows.
pub open spec fn rref_of(m: Seq<Seq<Q>>) -> Option<(Seq<Seq<Q>>, Seq<usize>)> {
    rr_from(m, Seq::empty(), 0, if m.len() > 0 { m[0].len() as int } else { 0 })
}

/// The search for a pivot stops at the first nonzero entry.
proof fn lemma_first_nonzero(m: Seq<Seq<Q>>, col: int, from: int, sel: int)
    requires
        0 <= from <= sel <= m.len(),
        forall|r: int| from <= r < sel ==> (#[trigger] m[r][col]).0 == 0,
        sel == m.len() || m[sel][col].0 != 0,
    ensures
        first_nonzero(m, col, from) == sel,
    decreases sel - from,
{
    if from < sel {
        lemma_first_nonzero(m, col, from + 1, sel);
    }
}

/// Rows `a` and `b` exchanged.
pub open spec fn swapped(m: Seq<Seq<Frac>>, a: int, b: int) -> Seq<Seq<Frac>> {
    m.update(a, m[b]).update(b, m[a])
}

proof fn lemma_swap_preserves(m: Seq<Seq<Frac>>, a: int, b: int, cols: int)
    requires
        0 <= a < m.len(),
        0 <= b < m.len(),
    ensures
        solutions_preserved(swapped(m, a, b), m, cols),
{
    let t = swapped(m, a, b);
    assert forall|v: Seq<Q>| candidate(v, cols) && #[trigger] solves(t, v, cols) implies solves(
        m,
        v,
        cols,
    ) by {
        assert forall|r: int| 0 <= r < m.len() implies (#[trigger] dot(fq(m[r]), v, cols)).0
            == 0 by {
            if r == a {
                assert(t[b] == m[a]);
                assert(dot(fq(t[b]), v, cols).0 == 0);
            } else if r == b {
                assert(t[a] == m[b]);
                assert(dot(fq(t[a]), v, cols).0 == 0);
            } else {
                assert(t[r] == m[r]);
                assert(dot(fq(t[r]), v, cols).0 == 0);
            }
        }
    }
}

/// Replacing row `p` by a row whose entries are those of row `p` scaled by
/// a nonzero factor keeps every solution.
proof fn lemma_scale_preserves(m: Seq<Seq<Frac>>, p: int, new_row: Seq<Frac>, piv: Q, cols: int)
    requires
        0 <= p < m.len(),
        matrix_ok(m, cols),
        new_row.len() == cols,
        forall|c: int| 0 <= c < cols ==> (#[trigger] new_row[c]).wf(),
        piv.1 > 0,
        piv.0 != 0,
        forall|c: int|
            0 <= c < cols ==> same_value(#[trigger] new_row[c]@, mul_pair(m[p][c]@, recip(piv))),
    ensures
        solutions_preserved(m.update(p, new_row), m, cols),
{
    let t = m.update(p, new_row);
    assert(recip(piv).1 > 0);
    lemma_row_dens(new_row, cols);
    lemma_row_dens(m[p], cols);
    assert forall|v: Seq<Q>| candidate(v, cols) && #[trigger] solves(t, v, cols) implies solves(
        m,
        v,
        cols,
    ) by {
        assert forall|r: int| 0 <= r < m.len() implies (#[trigger] dot(fq(m[r]), v, cols)).0
            == 0 by {
            assert(dot(fq(t[r]), v, cols).0 == 0);
            if r == p {
                assert forall|c: int| 0 <= c < cols implies same_value(
                    #[trigger] fq(new_row)[c],
                    mul_pair(fq(m[p])[c], recip(piv)),
                ) by {
                    assert(same_value(new_row[c]@, mul_pair(m[p][c]@, recip(piv))));
                }
                lemma_dot_scale(fq(m[p]), fq(new_row), recip(piv), v, cols);
                crate::linalg::lemma_dot_den_pos(fq(new_row), v, cols);
                let d = dot(fq(m[p]), v, cols);
                let rc = recip(piv);
                assert(rc.0 != 0);
                assert(d.0 * rc.0 == 0) by (nonlinear_arith)
                    requires
                        same_value(dot(fq(new_row), v, cols), mul_pair(d, rc)),
                        dot(fq(new_row), v, cols).0 == 0,
                        dot(fq(new_row), v, cols).1 > 0;
                assert(d.0 == 0) by (nonlinear_arith)
                    requires d.0 * rc.0 == 0, rc.0 != 0;
            } else {
                assert(t[r] == m[r]);
            }
        }
    }
}

/// Replacing row `r` (not the pivot row `p`) by `row_r - f * row_p` keeps
/// every solution.
proof fn lemma_elim_preserves(m: Seq<Seq<Frac>>, r: int, p: int, new_row: Seq<Frac>, f: Q, cols: int)
    requires
        0 <= r < m.len(),
        0 <= p < m.len(),
        r != p,
        matrix_ok(m, cols),
        new_row.len() == cols,
        forall|c: int| 0 <= c < cols ==> (#[trigger] new_row[c]).wf(),
        f.1 > 0,
        forall|c: int|
            0 <= c < cols ==> same_value(#[trigger] new_row[c]@, qsub_mul(m[r][c]@, f, m[p][c]@)),
    ensures
        solutions_preserved(m.update(r, new_row), m, cols),
{
    let t = m.update(r, new_row);
    lemma_row_dens(new_row, cols);
    lemma_row_dens(m[r], cols);
    lemma_row_dens(m[p], cols);
    assert forall|v: Seq<Q>| candidate(v, cols) && #[trigger] solves(t, v, cols) implies solves(
        m,
        v,
        cols,
    ) by {
        assert forall|i: int| 0 <= i < m.len() implies (#[trigger] dot(fq(m[i]), v, cols)).0
            == 0 by {
            assert(dot(fq(t[i]), v, cols).0 == 0);
            if i == r {
                assert(t[p] == m[p]);
                assert(dot(fq(m[p]), v, cols).0 == 0);
                assert forall|c: int| 0 <= c < cols implies same_value(
                    #[trigger] fq(new_row)[c],
                    qsub_mul(fq(m[r])[c], f, fq(m[p])[c]),
                ) by {
                    assert(same_value(new_row[c]@, qsub_mul(m[r][c]@, f, m[p][c]@)));
                }
                lemma_dot_elim(fq(new_row), fq(m[r]), fq(m[p]), f, v, cols);
                crate::linalg::lemma_dot_den_pos(fq(new_row), v, cols);
                crate::linalg::lemma_dot_den_pos(fq(m[r]), v, cols);
                crate::linalg::lemma_dot_den_pos(fq(m[p]), v, cols);
                let dr = dot(fq(m[r]), v, cols);
                let dp = dot(fq(m[p]), v, cols);
                let q = qsub_mul(dr, f, dp);
                assert(q.0 == dr.0 * (f.1 * dp.1) + (-(f.0 * dp.0)) * dr.1);
                assert(q.0 == 0) by (nonlinear_arith)
                    requires
                        same_value(dot(fq(new_row), v, cols), q),
                        dot(fq(new_row), v, cols).0 == 0,
                        dot(fq(new_row), v, cols).1 > 0;
                assert(dr.0 * (f.1 * dp.1) == 0) by (nonlinear_arith)
                    requires q.0 == dr.0 * (f.1 * dp.1) + (-(f.0 * dp.0)) * dr.1, dp.0 == 0, q.0
                        == 0;
                assert(dr.0 == 0) by (nonlinear_arith)
                    requires dr.0 * (f.1 * dp.1) == 0, f.1 > 0, dp.1 > 0;
            } else {
                assert(t[i] == m[i]);
            }
        }
    }
}

proof fn lemma_preserved_trans(
    a: Seq<Seq<Frac>>,
    b: Seq<Seq<Frac>>,
    c: Seq<Seq<Frac>>,
    cols: int,
)
    requires
        solutions_preserved(a, b, cols),
        solutions_preserved(b, c, cols),
    ensures
        solutions_preserved(a, c, cols),
{
    assert forall|v: Seq<Q>| candidate(v, cols) && #[trigger] solves(a, v, cols) implies solves(
        c,
        v,
        cols,
    ) by {
        assert(solves(b, v, cols));
    }
}

/// Gauss-Jordan elimination to reduced row echelon form, in place. Returns
/// the pivot column of each pivot row, in row order: exactly what
/// [`rref_of`] computes, and `ArithmeticOverflow` exactly when a step of it
/// leaves `i128`.
pub fn row_reduce(matrix: &mut Vec<Vec<Frac>>) -> (r: Result<Vec<usize>, GugenError>)
    requires
        old(matrix)@.len() > 0 ==> matrix_ok(mview(old(matrix)@), old(matrix)@[0]@.len() as int),
    ensures
        r is Err ==> r->Err_0 == GugenError::ArithmeticOverflow,
        r is Ok ==> ({
            let cols = if old(matrix)@.len() > 0 {
                old(matrix)@[0]@.len() as int
            } else {
                0
            };
            let m = mview(final(matrix)@);
            &&& m.len() == old(matrix)@.len()
            &&& matrix_ok(m, cols)
            &&& r->Ok_0@.len() <= m.len()
            &&& echelon(m, r->Ok_0@, cols)
            &&& solutions_preserved(m, mview(old(matrix)@), cols)
        }),
        r is Err <==> rref_of(qm(mview(old(matrix)@))) is None,
        r is Ok ==> rref_of(qm(mview(old(matrix)@))) == Some(
            (qm(mview(final(matrix)@)), r->Ok_0@),
        ),
{
    let rows = matrix.len();
    let cols = if rows > 0 {
        matrix[0].len()
    } else {
        0
    };
    let ghost orig = mview(matrix@);
    let ghost oq = qm(orig);
    let mut pivots: Vec<usize> = Vec::new();
    let mut pivot_row: usize = 0;
    let mut col: usize = 0;
    proof {
        if rows > 0 {
            assert(oq[0] == fq(orig[0]));
            assert(orig[0] == matrix@[0]@);
        }
        assert(pivots@ =~= Seq::<usize>::empty());

        assert forall|v: Seq<Q>| candidate(v, cols as int) && #[trigger] solves(
            mview(matrix@),
            v,
            cols as int,
        ) implies solves(orig, v, cols as int) by {}
    }
    while col < cols && pivot_row < rows
        invariant
            rows == matrix@.len(),
            rows == orig.len(),
            rows > 0 ==> cols == orig[0].len(),
            matrix_ok(mview(matrix@), cols as int),
            pivot_row == pivots@.len(),
            pivot_row <= rows,
            col <= cols,
            echelon(mview(matrix@), pivots@, col as int),
            solutions_preserved(mview(matrix@), orig, cols as int),
            oq == qm(orig),
            orig == mview(old(matrix)@),
            rref_of(oq) == rr_from(qm(mview(matrix@)), pivots@, col as int, cols as int),
        decreases cols - col,
    {
        let ghost m0 = mview(matrix@);
        let mut sel = pivot_row;
        proof {
            lemma_matrix_rows(matrix@, cols as int);
        }
        while sel < rows && matrix[sel][col].is_zero()
            invariant
                pivot_row <= sel <= rows,
                rows == matrix@.len(),
                col < cols,
                matrix_ok(mview(matrix@), cols as int),
                forall|r: int| 0 <= r < rows ==> (#[trigger] matrix@[r])@.len() == cols,
                forall|r: int| pivot_row <= r < sel ==> (#[trigger] mview(matrix@)[r][col as int])@.0
                    == 0,
            decreases rows - sel,
        {
            sel = sel + 1;
        }
        proof {
            let mq = qm(mview(matrix@));
            assert forall|r: int| pivot_row <= r < sel implies (#[trigger] mq[r][col as int]).0
                == 0 by {
                assert(mq[r][col as int] == mview(matrix@)[r][col as int]@);
            }
            if sel < rows {
                assert(mq[sel as int][col as int] == mview(matrix@)[sel as int][col as int]@);
            }
            lemma_first_nonzero(mq, col as int, pivot_row as int, sel as int);
        }
        if sel == rows {
            proof {
                let m = mview(matrix@);
                assert forall|r: int, c: int|
                    pivots@.len() <= r < m.len() && 0 <= c < col + 1 implies (#[trigger] m[r][c])@.0
                    == 0 by {
                    if c < col {
                    } else {
                        assert(m[r][col as int]@.0 == 0);
                    }
                }
                assert forall|k: int| 0 <= k < pivots@.len() implies #[trigger] pivots@[k] < col
                    + 1 by {}
            }
            col = col + 1;
        } else {
            // Bring the pivot row up.
            if sel != pivot_row {
                let mut tmp: Vec<Frac> = Vec::new();
                matrix.set_and_swap(pivot_row, &mut tmp);
                matrix.set_and_swap(sel, &mut tmp);
                matrix.set_and_swap(pivot_row, &mut tmp);
                proof {
                    assert(mview(matrix@) =~= swapped(m0, pivot_row as int, sel as int));
                    lemma_swap_preserves(m0, pivot_row as int, sel as int, cols as int);
                    lemma_preserved_trans(mview(matrix@), m0, orig, cols as int);
                }
            }
            let ghost m1 = mview(matrix@);
            proof {
                let q0 = qm(m0);
                assert(qm(m1) =~= q0.update(pivot_row as int, q0[sel as int]).update(
                    sel as int,
                    q0[pivot_row as int],
                ));
                assert(echelon(m1, pivots@, col as int)) by {
                    assert forall|k: int, r: int|
                        0 <= k < pivots@.len() && 0 <= r < m1.len() implies #[trigger] m1[r][pivots@[k] as int]@
                        == (if r == k {
                        (1int, 1int)
                    } else {
                        (0int, 1int)
                    }) by {
                        if r == pivot_row as int {
                            assert(m1[r] == m0[sel as int]);
                            assert(m0[sel as int][pivots@[k] as int]@.0 == 0);
                        } else if r == sel as int {
                            assert(m1[r] == m0[pivot_row as int]);
                        } else {
                            assert(m1[r] == m0[r]);
                        }
                    }
                    assert forall|r: int, c: int|
                        pivots@.len() <= r < m1.len() && 0 <= c < col implies (#[trigger] m1[r][c])@.0
                        == 0 by {
                        if r == pivot_row as int {
                            assert(m1[r] == m0[sel as int]);
                        } else if r == sel as int {
                            assert(m1[r] == m0[pivot_row as int]);
                        } else {
                            assert(m1[r] == m0[r]);
                        }
                    }
                }
                assert(m1[pivot_row as int][col as int]@.0 != 0);
            }
            proof {
                lemma_matrix_entry(matrix@, cols as int, pivot_row as int, col as int);
            }
            let pivot_val = matrix[pivot_row][col];
            // Normalize the pivot row.
            proof {
                assert(qm(m1)[pivot_row as int] == fq(m1[pivot_row as int]));
                assert(qm(m1)[pivot_row as int][col as int] == pivot_val@);
            }
            let scaled = match scale_row(&matrix[pivot_row], pivot_val) {
                Ok(x) => x,
                Err(e) => {
                    proof {
                        let q0 = qm(m0);
                        let m1s = q0.update(pivot_row as int, q0[sel as int]).update(
                            sel as int,
                            q0[pivot_row as int],
                        );
                        assert(m1s == qm(m1));
                        assert(scale_q(m1s[pivot_row as int], m1s[pivot_row as int][col as int]) is None);
                        assert(rr_from(q0, pivots@, col as int, cols as int) is None);
                    }
                    return Err(e);
                },
            };
            proof {
                let prow = m1[pivot_row as int];
                assert forall|c: int| 0 <= c < cols implies same_value(
                    #[trigger] scaled@[c]@,
                    mul_pair(prow[c]@, recip(pivot_val@)),
                ) && (prow[c]@.0 == 0 ==> scaled@[c]@ == (0int, 1int)) && (c == col ==> scaled@[c]@
                    == (1int, 1int)) by {
                    assert(prow[c].wf());
                    lemma_scale_entry(prow[c]@, pivot_val@);
                }
                lemma_scale_preserves(m1, pivot_row as int, scaled@, pivot_val@, cols as int);
            }
            matrix.set(pivot_row, scaled);
            let ghost m2 = mview(matrix@);
            proof {
                assert(m2 =~= m1.update(pivot_row as int, scaled@));
                lemma_preserved_trans(m2, m1, orig, cols as int);
                assert(qm(m2) =~= qm(m1).update(pivot_row as int, fq(scaled@)));
            }
            let piv = copy_row(&matrix[pivot_row]);
            // Clear the pivot column in every other row.
            let mut r: usize = 0;
            while r < rows
                invariant
                    0 <= r <= rows,
                    rows == matrix@.len(),
                    pivot_row < rows,
                    col < cols,
                    pivot_row == pivots@.len(),
                    piv@ == m2[pivot_row as int],
                    mview(matrix@)[pivot_row as int] == m2[pivot_row as int],
                    matrix_ok(mview(matrix@), cols as int),
                    matrix_ok(m2, cols as int),
                    m2.len() == rows,
                    m2[pivot_row as int][col as int]@ == (1int, 1int),
                    forall|k: int| 0 <= k < pivots@.len() ==> #[trigger] m2[pivot_row as int][pivots@[k] as int]@
                        == (0int, 1int),
                    forall|c: int| 0 <= c < col ==> (#[trigger] m2[pivot_row as int][c])@.0 == 0,
                    echelon(m2, pivots@, col as int),
                    forall|i: int| r <= i < rows ==> #[trigger] mview(matrix@)[i] == m2[i],
                    forall|i: int|
                        0 <= i < r && i != pivot_row ==> (#[trigger] mview(matrix@)[i][col as int])@
                            == (0int, 1int),
                    forall|i: int, k: int|
                        0 <= i < r && 0 <= k < pivots@.len() ==> (#[trigger] mview(matrix@)[i][pivots@[k] as int])@
                            == m2[i][pivots@[k] as int]@,
                    forall|i: int, c: int|
                        0 <= i < r && pivots@.len() <= i && 0 <= c < col ==> (#[trigger] mview(
                            matrix@,
                        )[i][c])@.0 == 0,
                    solutions_preserved(mview(matrix@), orig, cols as int),
                    orig == mview(old(matrix)@),
                    oq == qm(orig),
                    rref_of(oq) == (match clear_from(
                        qm(mview(matrix@)),
                        pivot_row as int,
                        col as int,
                        r as int,
                    ) {
                        None => None,
                        Some(m3) => rr_from(m3, pivots@.push(col), col + 1, cols as int),
                    }),
                decreases rows - r,
            {
                if r != pivot_row {
                    proof {
                        lemma_matrix_entry(matrix@, cols as int, r as int, col as int);
                    }
                    let factor = matrix[r][col];
                    if !factor.is_zero() {
                        let ghost mc = mview(matrix@);
                        proof {
                            assert(qm(mc)[r as int] == fq(mc[r as int]));
                            assert(qm(mc)[pivot_row as int] == fq(piv@));
                            assert(qm(mc)[r as int][col as int] == factor@);
                        }
                        let new_row = match eliminate_row(&matrix[r], factor, &piv) {
                            Ok(x) => x,
                            Err(e) => {
                                proof {
                                    let cq = qm(mc);
                                    assert(elim_q(cq[r as int], cq[r as int][col as int], cq[pivot_row as int]) is None);
                                    assert(clear_from(cq, pivot_row as int, col as int, r as int) is None);
                                }
                                return Err(e);
                            },
                        };
                        proof {
                            assert(mc[r as int] == m2[r as int]);
                            assert forall|c: int| 0 <= c < cols implies same_value(
                                #[trigger] new_row@[c]@,
                                qsub_mul(mc[r as int][c]@, factor@, mc[pivot_row as int][c]@),
                            ) && (m2[pivot_row as int][c]@ == (0int, 1int) ==> new_row@[c]@
                                == mc[r as int][c]@) && (c == col ==> new_row@[c]@ == (0int, 1int)) by {
                                assert(mc[r as int][c].wf());
                                assert(piv@[c].wf());
                                lemma_elim_entry(mc[r as int][c]@, factor@, piv@[c]@);
                            }
                            lemma_elim_preserves(
                                mc,
                                r as int,
                                pivot_row as int,
                                new_row@,
                                factor@,
                                cols as int,
                            );
                            lemma_preserved_trans(
                                mc.update(r as int, new_row@),
                                mc,
                                orig,
                                cols as int,
                            );
                            // Zero entries of the pivot row leave the entry unchanged.
                            assert forall|c: int| 0 <= c < col implies (#[trigger] m2[pivot_row as int][c])@
                                == (0int, 1int) by {
                                assert(m2[pivot_row as int][c].wf());
                                crate::numtheory::lemma_gcd_zero_left(
                                    m2[pivot_row as int][c]@.1 as nat,
                                );
                            }
                        }
                        matrix.set(r, new_row);
                        proof {
                            assert(mview(matrix@) =~= mc.update(r as int, new_row@));
                            assert(qm(mview(matrix@)) =~= qm(mc).update(r as int, fq(new_row@)));
                            assert forall|k: int| 0 <= k < pivots@.len() implies (#[trigger] mview(
                                matrix@,
                            )[r as int][pivots@[k] as int])@ == m2[r as int][pivots@[k] as int]@ by {
                                let c = pivots@[k] as int;
                                assert(m2[pivot_row as int][c]@ == (0int, 1int));
                                assert(new_row@[c]@ == mc[r as int][c]@);
                            }
                        }
                    } else {
                        proof {
                            crate::numtheory::lemma_gcd_zero_left(factor@.1 as nat);
                            assert(qm(mview(matrix@))[r as int][col as int] == factor@);
                        }
                    }
                }
                r = r + 1;
            }
            proof {
                let m3 = mview(matrix@);
                let np = pivots@.push(col);
                assert forall|k: int, i: int|
                    0 <= k < np.len() && 0 <= i < m3.len() implies #[trigger] m3[i][np[k] as int]@
                    == (if i == k {
                    (1int, 1int)
                } else {
                    (0int, 1int)
                }) by {
                    if k < pivots@.len() {
                        assert(np[k] == pivots@[k]);
                        if i == pivot_row as int {
                        } else {
                            assert(m3[i][pivots@[k] as int]@ == m2[i][pivots@[k] as int]@);
                        }
                    } else {
                        assert(np[k] == col);
                    }
                }
                assert forall|i: int, c: int|
                    np.len() <= i < m3.len() && 0 <= c < col + 1 implies (#[trigger] m3[i][c])@.0
                    == 0 by {
                    if c == col {
                        assert(m3[i][col as int]@ == (0int, 1int));
                    }
                }
                assert(echelon(m3, np, col + 1));
            }
            pivots.push(col);
            pivot_row = pivot_row + 1;
            col = col + 1;
        }
    }
    proof {
        let m = mview(matrix@);
        if col < cols {
            assert(pivot_row == rows);
        }
        assert(echelon(m, pivots@, cols as int)) by {
            assert forall|k: int| 0 <= k < pivots@.len() implies #[trigger] pivots@[k] < cols by {}
            assert forall|r: int, c: int|
                pivots@.len() <= r < m.len() && 0 <= c < cols implies (#[trigger] m[r][c])@.0
                == 0 by {
                assert(col == cols);
            }
        }
    }
    Ok(pivots)
}

/// An exact copy of a row.
fn copy_row(row: &Vec<Frac>) -> (r: Vec<Frac>)
    ensures
        r@ == row@,
{
    let mut out: Vec<Frac> = Vec::new();
    let mut i: usize = 0;
    while i < row.len()
        invariant
            i <= row@.len(),
            out@ == row@.take(i as int),
        decreases row@.len() - i,
    {
        out.push(row[i]);
        i = i + 1;
        assert(out@ =~= row@.take(i as int));
    }
    assert(row@.take(i as int) =~= row@);
    out
}

/// The null-space basis vector of a reduced matrix for free column
/// `free_col`: 1 there, minus that column's entry at each pivot, 0
/// elsewhere. `ArithmeticOverflow` exactly when one of those entries is
/// `i128::MIN`, whose negation has no `i128` numerator.
pub fn null_vector(matrix: &Vec<Vec<Frac>>, pivots: &Vec<usize>, free_col: usize, cols: usize) -> (r:
    Result<Vec<Frac>, GugenError>)
    requires
        matrix_ok(mview(matrix@), cols as int),
        echelon(mview(matrix@), pivots@, cols as int),
        pivots@.len() <= matrix@.len(),
        free_col < cols,
        forall|k: int| 0 <= k < pivots@.len() ==> #[trigger] pivots@[k] != free_col,
    ensures
        r is Err ==> r->Err_0 == GugenError::ArithmeticOverflow,
        r is Err <==> exists|k: int|
            0 <= k < pivots@.len() && (#[trigger] mview(matrix@)[k][free_col as int])@.0 == i128::MIN,
        r matches Ok(v) ==> v@.len() == cols && (forall|i: int|
            0 <= i < cols ==> (#[trigger] v@[i]).wf()) && solves(mview(matrix@), fq(v@), cols as int),
        r matches Ok(v) ==> v@[free_col as int]@ == (1int, 1int) && (forall|k: int|
            0 <= k < pivots@.len() ==> v@[#[trigger] pivots@[k] as int]@ == qneg(
                mview(matrix@)[k][free_col as int]@,
            )) && (forall|i: int|
            0 <= i < cols && i != free_col && !(exists|k: int|
                0 <= k < pivots@.len() && #[trigger] pivots@[k] == i) ==> v@[i]@ == (0int, 1int)),
{
    let ghost m = mview(matrix@);
    let mut v: Vec<Frac> = Vec::new();
    let mut i: usize = 0;
    while i < cols
        invariant
            i <= cols,
            v@.len() == i,
            forall|k: int| 0 <= k < i ==> (#[trigger] v@[k]).wf() && v@[k]@ == (0int, 1int),
        decreases cols - i,
    {
        v.push(Frac::zero());
        i = i + 1;
    }
    v.set(free_col, Frac::one());
    proof {
        lemma_matrix_rows(matrix@, cols as int);
    }
    let mut k: usize = 0;
    while k < pivots.len()
        invariant
            k <= pivots@.len(),
            pivots@.len() <= matrix@.len(),
            m == mview(matrix@),
            matrix_ok(m, cols as int),
            echelon(m, pivots@, cols as int),
            free_col < cols,
            forall|j: int| 0 <= j < pivots@.len() ==> #[trigger] pivots@[j] != free_col,
            v@.len() == cols,
            forall|i: int| 0 <= i < cols ==> (#[trigger] v@[i]).wf(),
            v@[free_col as int]@ == (1int, 1int),
            forall|j: int|
                0 <= j < k ==> same_value(
                    #[trigger] v@[pivots@[j] as int]@,
                    qneg(m[j][free_col as int]@),
                ) && v@[pivots@[j] as int]@ == qneg(m[j][free_col as int]@),
            forall|j: int| 0 <= j < k ==> (#[trigger] m[j][free_col as int])@.0 != i128::MIN,
            forall|i: int|
                0 <= i < cols && i != free_col && !(exists|j: int|
                    0 <= j < k && #[trigger] pivots@[j] == i) ==> v@[i]@ == (0int, 1int),
        decreases pivots@.len() - k,
    {
        proof {
            lemma_matrix_entry(matrix@, cols as int, k as int, free_col as int);
        }
        let x = matrix[k][free_col];
        proof {
            x.lemma_view_bounds();
            assert(0 * x@.1 == 0 && -x@.0 * 1 == -x@.0 && 0 * x@.1 + -x@.0 * 1 == -x@.0 && 1 * x@.1
                == x@.1) by (nonlinear_arith);
            assert(x@ == m[k as int][free_col as int]@);
        }
        let w = match Frac::zero().checked_sub(x) {
            Ok(w) => w,
            Err(e) => {
                return Err(e);
            },
        };
        let p = pivots[k];
        let ghost v0 = v@;
        proof {
            let d = add_pair((0int, 1int), (-x@.0, x@.1));
            assert(d == (-x@.0, x@.1)) by {
                assert(0 * x@.1 + (-x@.0) * 1 == -x@.0 && 1 * x@.1 == x@.1) by (nonlinear_arith);
            }
            lemma_reduce(d.0, d.1);
            assert(is_canonical((-x@.0, x@.1)));
            lemma_reduce_canonical((-x@.0, x@.1));
        }
        v.set(p, w);
        proof {
            assert forall|j: int|
                0 <= j < k + 1 implies same_value(
                    #[trigger] v@[pivots@[j] as int]@,
                    qneg(m[j][free_col as int]@),
                ) && v@[pivots@[j] as int]@ == qneg(m[j][free_col as int]@) by {
                if j < k {
                    assert(pivots@[j] < pivots@[k as int]);
                    assert(v@[pivots@[j] as int] == v0[pivots@[j] as int]);
                }
            }
            assert forall|i: int|
                0 <= i < cols && i != free_col && !(exists|j: int|
                    0 <= j < k + 1 && #[trigger] pivots@[j] == i) implies v@[i]@ == (0int, 1int) by {
                assert(i != p);
                assert(!(exists|j: int| 0 <= j < k && #[trigger] pivots@[j] == i)) by {
                    if exists|j: int| 0 <= j < k && #[trigger] pivots@[j] == i {
                        let j = choose|j: int| 0 <= j < k && #[trigger] pivots@[j] == i;
                        assert(pivots@[j] == i);
                    }
                }
                assert(v@[i] == v0[i]);
            }
        }
        k = k + 1;
    }
    proof {
        let b = fq(v@);
        assert(dens_pos(b, cols as int)) by {
            assert forall|i: int| 0 <= i < cols implies (#[trigger] b[i]).1 > 0 by {
                assert(v@[i].wf());
            }
        }
        assert forall|r: int| 0 <= r < m.len() implies (#[trigger] dot(fq(m[r]), b, cols as int)).0
            == 0 by {
            let a = fq(m[r]);
            lemma_row_dens(m[r], cols as int);
            if r < pivots@.len() {
                let p = pivots@[r] as int;
                let f = free_col as int;
                assert forall|i: int|
                    0 <= i < cols && i != p && i != f implies (#[trigger] mul_pair(a[i], b[i])).0
                    == 0 by {
                    if exists|j: int| 0 <= j < pivots@.len() && #[trigger] pivots@[j] == i {
                        let j = choose|j: int| 0 <= j < pivots@.len() && #[trigger] pivots@[j] == i;
                        assert(j != r);
                        assert(m[r][pivots@[j] as int]@ == (0int, 1int));
                        assert(a[i].0 == 0);
                    } else {
                        assert(b[i] == (0int, 1int));
                    }
                    assert(a[i].0 * b[i].0 == 0) by (nonlinear_arith)
                        requires a[i].0 == 0 || b[i].0 == 0;
                }
                lemma_dot_two_terms(a, b, cols as int, p, f);
                assert(m[r][p]@ == (1int, 1int));
                let x = a[f];
                let w = b[p];
                assert(same_value(w, qneg(x)));
                assert(b[f] == (1int, 1int));
                let sum = add_pair(mul_pair(a[p], b[p]), mul_pair(a[f], b[f]));
                assert(sum.0 == 0) by (nonlinear_arith)
                    requires
                        sum == add_pair(mul_pair((1int, 1int), w), mul_pair(x, (1int, 1int))),
                        w.0 * x.1 == -x.0 * w.1;
                lemma_dot_den_pos(a, b, cols as int);
                let d = dot(a, b, cols as int);
                assert(sum.1 > 0) by (nonlinear_arith)
                    requires sum == add_pair(mul_pair((1int, 1int), w), mul_pair(x, (1int, 1int))),
                        w.1 > 0, x.1 > 0;
                assert(d.0 == 0) by (nonlinear_arith)
                    requires d.0 * sum.1 == sum.0 * d.1, sum.0 == 0, sum.1 > 0;
            } else {
                assert forall|i: int| 0 <= i < cols implies (#[trigger] mul_pair(a[i], b[i])).0 == 0 by {
                    assert(m[r][i]@.0 == 0);
                    assert(a[i].0 * b[i].0 == 0) by (nonlinear_arith)
                        requires a[i].0 == 0;
                }
                lemma_dot_zero_terms(a, b, cols as int);
            }
        }
    }
    Ok(v)
}

} // verus!
