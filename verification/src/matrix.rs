use vstd::prelude::*;

use crate::sums::{sum, lemma_sum_take_step, lemma_sum_take_all};

verus! {

/// Integer view of a square matrix of `i64` entries.
pub open spec fn mat64(m: Seq<Vec<i64>>) -> Seq<Seq<int>> {
    m.map_values(|row: Vec<i64>| row@.map_values(|x: i64| x as int))
}

/// A `p` by `p` matrix.
pub open spec fn square(m: Seq<Seq<int>>, p: int) -> bool {
    m.len() == p && forall|i: int| 0 <= i < p ==> (#[trigger] m[i]).len() == p
}

/// The terms of entry (a, b) of the product of two `p` by `p` matrices.
pub open spec fn mul_terms(g: Seq<Seq<int>>, m: Seq<Seq<int>>, a: int, b: int, p: nat) -> Seq<
    int,
> {
    Seq::new(p, |k: int| g[a][k] * m[k][b])
}

/// Entry (a, b) of the product of two `p` by `p` matrices.
pub open spec fn mul_entry(g: Seq<Seq<int>>, m: Seq<Seq<int>>, a: int, b: int, p: nat) -> int {
    sum(mul_terms(g, m, a, b, p))
}

/// The product of the two matrices is `dt` times the identity.
pub open spec fn is_scaled_identity(g: Seq<Seq<int>>, m: Seq<Seq<int>>, dt: int, p: int) -> bool {
    forall|a: int, b: int|
        0 <= a < p && 0 <= b < p ==> #[trigger] mul_entry(g, m, a, b, p as nat) == (if a == b {
            dt
        } else {
            0
        })
}

/// Flat index of cell (i, j) in a row-major `p` by `p` matrix.
fn cell(i: usize, j: usize, p: usize) -> (r: usize)
    requires
        i < p,
        j < p,
        p <= 0xFFFF,
    ensures
        r == i * p + j,
        r < p * p,
{
    proof {
        assert(i * p + j < p * p) by (nonlinear_arith)
            requires
                i < p,
                j < p,
        ;
        assert(p * p <= 0xFFFF * 0xFFFF) by (nonlinear_arith)
            requires
                p <= 0xFFFF,
        ;
    }
    i * p + j
}

/// Candidate determinant of a square matrix, by fraction-free elimination
/// with row pivoting.  Returns `None` when an intermediate value leaves
/// the 64-bit range.  Nothing is claimed of the returned value: a caller
/// that relies on it verifies its use by an exact multiplication check.
pub(crate) fn determinant(m: &Vec<Vec<i64>>, p: usize) -> Option<i64>
    requires
        p <= 0xFFFF,
        m@.len() == p,
        forall|i: int| 0 <= i < p ==> (#[trigger] m@[i])@.len() == p,
{
    if p == 0 {
        return Some(1);
    }

    // Work on a flat row-major copy.
    let mut w: Vec<i64> = Vec::new();
    let mut i: usize = 0;
    while i < p
        invariant
            p <= 0xFFFF,
            m@.len() == p,
            forall|t: int| 0 <= t < p ==> (#[trigger] m@[t])@.len() == p,
            i <= p,
            w@.len() == i * p,
        decreases p - i,
    {
        let mut j: usize = 0;
        while j < p
            invariant
                p <= 0xFFFF,
                m@.len() == p,
                forall|t: int| 0 <= t < p ==> (#[trigger] m@[t])@.len() == p,
                i < p,
                j <= p,
                w@.len() == i * p + j,
            decreases p - j,
        {
            w.push(m[i][j]);
            j += 1;
        }
        proof {
            assert((i + 1) * p == i * p + p) by (nonlinear_arith);
        }
        i += 1;
    }
    proof {
        assert(p * p <= 0xFFFF * 0xFFFF) by (nonlinear_arith)
            requires
                p <= 0xFFFF,
        ;
    }

    let mut sign: i64 = 1;
    let mut prev: i64 = 1;
    let mut k: usize = 0;
    while k < p
        invariant
            p <= 0xFFFF,
            w@.len() == p * p,
            sign == 1 || sign == -1,
        decreases p - k,
    {
        // Find a row with a non-zero entry in the pivot column.
        let mut piv: usize = k;
        loop
            invariant
                p <= 0xFFFF,
                w@.len() == p * p,
                k < p,
                k <= piv <= p,
            ensures
                k <= piv <= p,
                w@.len() == p * p,
            decreases p - piv,
        {
            if piv >= p {
                break ;
            }
            if w[cell(piv, k, p)] != 0 {
                break ;
            }
            piv += 1;
        }
        if piv == p {
            // The whole column is zero below the eliminated rows.
            return Some(0);
        }
        if piv != k {
            let mut j: usize = 0;
            while j < p
                invariant
                    p <= 0xFFFF,
                    w@.len() == p * p,
                    k < p,
                    piv < p,
                    j <= p,
                decreases p - j,
            {
                let a = w[cell(k, j, p)];
                let b = w[cell(piv, j, p)];
                w.set(cell(k, j, p), b);
                w.set(cell(piv, j, p), a);
                j += 1;
            }
            sign = -sign;
        }
        let pk = w[cell(k, k, p)];
        let mut r: usize = k + 1;
        while r < p
            invariant
                p <= 0xFFFF,
                w@.len() == p * p,
                k < p,
                k < r,
            decreases p - r,
        {
            let mut j: usize = k + 1;
            while j < p
                invariant
                    p <= 0xFFFF,
                    w@.len() == p * p,
                    k < p,
                    r < p,
                    k < j,
                decreases p - j,
            {
                let a = w[cell(r, j, p)];
                let b = w[cell(r, k, p)];
                let c = w[cell(k, j, p)];
                let t1 = match a.checked_mul(pk) {
                    Some(v) => v,
                    None => {
                        return None;
                    },
                };
                let t2 = match b.checked_mul(c) {
                    Some(v) => v,
                    None => {
                        return None;
                    },
                };
                let t3 = match t1.checked_sub(t2) {
                    Some(v) => v,
                    None => {
                        return None;
                    },
                };
                let q = match t3.checked_div(prev) {
                    Some(v) => v,
                    None => {
                        return None;
                    },
                };
                w.set(cell(r, j, p), q);
                j += 1;
            }
            let zi = cell(r, k, p);
            w.set(zi, 0);
            r += 1;
        }
        prev = pk;
        k += 1;
    }

    let last = w[cell(p - 1, p - 1, p)];
    last.checked_mul(sign)
}

/// Candidate adjugate of a square matrix: the transposed matrix of signed
/// minor determinants.  Returns `None` when a minor determinant leaves
/// the 64-bit range.  As with the determinant, nothing is claimed of the
/// values.
pub(crate) fn adjugate(m: &Vec<Vec<i64>>, p: usize) -> (r: Option<Vec<Vec<i64>>>)
    requires
        1 <= p <= 0xFFFF,
        m@.len() == p,
        forall|i: int| 0 <= i < p ==> (#[trigger] m@[i])@.len() == p,
    ensures
        r is Some ==> r->0@.len() == p,
        r is Some ==> forall|i: int| 0 <= i < p ==> (#[trigger] r->0@[i])@.len() == p,
{
    let mut rows: Vec<Vec<i64>> = Vec::new();
    let mut a: usize = 0;
    while a < p
        invariant
            1 <= p <= 0xFFFF,
            m@.len() == p,
            forall|t: int| 0 <= t < p ==> (#[trigger] m@[t])@.len() == p,
            a <= p,
            rows@.len() == a,
            forall|t: int| 0 <= t < a ==> (#[trigger] rows@[t])@.len() == p,
        decreases p - a,
    {
        let mut row: Vec<i64> = Vec::new();
        let mut b: usize = 0;
        while b < p
            invariant
                1 <= p <= 0xFFFF,
                m@.len() == p,
                forall|t: int| 0 <= t < p ==> (#[trigger] m@[t])@.len() == p,
                a < p,
                b <= p,
                row@.len() == b,
            decreases p - b,
        {
            // The (a, b) adjugate entry is the signed minor obtained by
            // deleting row b and column a.
            let mut minor: Vec<Vec<i64>> = Vec::new();
            let mut i: usize = 0;
            while i < p
                invariant
                    1 <= p <= 0xFFFF,
                    m@.len() == p,
                    forall|t: int| 0 <= t < p ==> (#[trigger] m@[t])@.len() == p,
                    a < p,
                    b < p,
                    i <= p,
                    minor@.len() == (if i <= b {
                        i as int
                    } else {
                        i - 1
                    }),
                    forall|t: int|
                        0 <= t < minor@.len() ==> (#[trigger] minor@[t])@.len() == p - 1,
                decreases p - i,
            {
                if i != b {
                    let mut mrow: Vec<i64> = Vec::new();
                    let mut j: usize = 0;
                    while j < p
                        invariant
                            m@.len() == p,
                            forall|t: int| 0 <= t < p ==> (#[trigger] m@[t])@.len() == p,
                            a < p,
                            i < p,
                            j <= p,
                            mrow@.len() == (if j <= a {
                                j as int
                            } else {
                                j - 1
                            }),
                        decreases p - j,
                    {
                        if j != a {
                            mrow.push(m[i][j]);
                        }
                        j += 1;
                    }
                    minor.push(mrow);
                }
                i += 1;
            }
            let minor_det = match determinant(&minor, p - 1) {
                Some(v) => v,
                None => {
                    return None;
                },
            };
            let signed = if (a + b) % 2 == 1 {
                if minor_det == i64::MIN {
                    return None;
                }
                -minor_det
            } else {
                minor_det
            };
            row.push(signed);
            b += 1;
        }
        rows.push(row);
        a += 1;
    }
    Some(rows)
}

/// One wrong product entry refutes the scaled-identity property.
proof fn lemma_not_identity(g: Seq<Seq<int>>, m: Seq<Seq<int>>, dt: int, p: int, a: int, b: int)
    requires
        0 <= a < p,
        0 <= b < p,
        mul_entry(g, m, a, b, p as nat) != (if a == b {
            dt
        } else {
            0
        }),
    ensures
        !is_scaled_identity(g, m, dt, p),
{
}

/// Decides by exact integer multiplication whether `g * cand` equals
/// `dt` times the identity with `dt` non-zero.  The answer is exact in
/// both directions: the bounded entries of `g` and the bounded dimension
/// keep every partial sum within a 128-bit accumulator, so no genuine
/// inverse is ever rejected.  Every proof that the stored weights invert
/// the overlap matrix rests on this check, not on the elimination that
/// produced the candidate.
pub(crate) fn check_inverse(g: &Vec<Vec<i64>>, cand: &Vec<Vec<i64>>, dt: i64, p: usize) -> (r:
    bool)
    requires
        p <= 0xFFFF,
        g@.len() == p,
        forall|i: int| 0 <= i < p ==> (#[trigger] g@[i])@.len() == p,
        forall|i: int, k: int|
            0 <= i < p && 0 <= k < p ==> -0x1_0000_0000 <= #[trigger] g@[i]@[k] as int
                <= 0x1_0000_0000,
        cand@.len() == p,
        forall|i: int| 0 <= i < p ==> (#[trigger] cand@[i])@.len() == p,
    ensures
        r == (dt != 0 && is_scaled_identity(mat64(g@), mat64(cand@), dt as int, p as int)),
{
    if dt == 0 {
        return false;
    }
    let ghost gv = mat64(g@);
    let ghost cv = mat64(cand@);
    proof {
        assert forall|i: int, k: int|
            0 <= i < p && 0 <= k < p implies -0x1_0000_0000 <= #[trigger] gv[i][k]
            <= 0x1_0000_0000 by {
            assert(gv[i][k] == g@[i]@[k] as int);
        }
    }
    let mut a: usize = 0;
    while a < p
        invariant
            p <= 0xFFFF,
            g@.len() == p,
            forall|i: int| 0 <= i < p ==> (#[trigger] g@[i])@.len() == p,
            forall|i: int, k2: int|
                0 <= i < p && 0 <= k2 < p ==> -0x1_0000_0000 <= #[trigger] g@[i]@[k2] as int
                    <= 0x1_0000_0000,
            cand@.len() == p,
            forall|i: int| 0 <= i < p ==> (#[trigger] cand@[i])@.len() == p,
            gv == mat64(g@),
            cv == mat64(cand@),
            a <= p,
            forall|x: int, y: int|
                0 <= x < a && 0 <= y < p ==> #[trigger] mul_entry(gv, cv, x, y, p as nat) == (if x
                    == y {
                    dt as int
                } else {
                    0
                }),
        decreases p - a,
    {
        let mut b: usize = 0;
        while b < p
            invariant
                p <= 0xFFFF,
                g@.len() == p,
                forall|i: int| 0 <= i < p ==> (#[trigger] g@[i])@.len() == p,
                forall|i: int, k2: int|
                    0 <= i < p && 0 <= k2 < p ==> -0x1_0000_0000 <= #[trigger] g@[i]@[k2] as int
                        <= 0x1_0000_0000,
                cand@.len() == p,
                forall|i: int| 0 <= i < p ==> (#[trigger] cand@[i])@.len() == p,
                gv == mat64(g@),
                cv == mat64(cand@),
                a < p,
                b <= p,
                forall|y: int|
                    0 <= y < b ==> #[trigger] mul_entry(gv, cv, a as int, y, p as nat) == (if a
                        as int == y {
                        dt as int
                    } else {
                        0
                    }),
            decreases p - b,
        {
            let ghost terms = mul_terms(gv, cv, a as int, b as int, p as nat);
            let mut acc: i128 = 0;
            let mut k: usize = 0;
            while k < p
                invariant
                    p <= 0xFFFF,
                    g@.len() == p,
                    forall|i: int| 0 <= i < p ==> (#[trigger] g@[i])@.len() == p,
                    forall|i: int, k2: int|
                        0 <= i < p && 0 <= k2 < p ==> -0x1_0000_0000 <= #[trigger] g@[i]@[k2]
                            as int <= 0x1_0000_0000,
                    cand@.len() == p,
                    forall|i: int| 0 <= i < p ==> (#[trigger] cand@[i])@.len() == p,
                    gv == mat64(g@),
                    cv == mat64(cand@),
                    a < p,
                    b < p,
                    k <= p,
                    terms == mul_terms(gv, cv, a as int, b as int, p as nat),
                    acc == sum(terms.take(k as int)),
                    -(k as int) * 0x8000_0000_0000_0000_0000_0000 <= acc <= (k as int)
                        * 0x8000_0000_0000_0000_0000_0000,
                decreases p - k,
            {
                let x = g[a][k];
                let y = cand[k][b];
                proof {
                    lemma_sum_take_step(terms, k as int);
                    assert(terms[k as int] == gv[a as int][k as int] * cv[k as int][b as int]);
                    assert(-0x1_0000_0000 <= g@[a as int]@[k as int] as int <= 0x1_0000_0000);
                    assert(-0x8000_0000_0000_0000_0000_0000 <= (x as int) * (y as int)
                        <= 0x8000_0000_0000_0000_0000_0000) by (nonlinear_arith)
                        requires
                            -0x1_0000_0000 <= x as int <= 0x1_0000_0000,
                            -0x8000_0000_0000_0000 <= y as int <= 0x7FFF_FFFF_FFFF_FFFF,
                    ;
                }
                let prod = (x as i128) * (y as i128);
                acc = acc + prod;
                k += 1;
            }
            proof {
                lemma_sum_take_all(terms);
            }
            let target: i128 = if a == b {
                dt as i128
            } else {
                0
            };
            if acc != target {
                proof {
                    assert(acc == mul_entry(gv, cv, a as int, b as int, p as nat));
                    assert(mul_entry(gv, cv, a as int, b as int, p as nat) != (if a as int == b
                        as int {
                        dt as int
                    } else {
                        0
                    }));
                    assert(((p as int) as nat) == (p as nat));
                    lemma_not_identity(gv, cv, dt as int, p as int, a as int, b as int);
                }
                return false;
            }
            b += 1;
        }
        a += 1;
    }
    true
}

} // verus!
