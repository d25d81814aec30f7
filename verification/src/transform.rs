//! The exact index permutations of the separable 2-D spectral transform:
//! the centering shift applied to each transformed row, and the matrix
//! transposition between the row pass and the column pass.
//!
//! The 1-D transforms themselves run on complex floating-point samples
//! outside this crate; both permutations here are generic in the sample
//! type, so the pipeline applies them unchanged to its complex rows.

use vstd::prelude::*;
use vstd::arithmetic::div_mod::lemma_add_mod_noop_right;
use vstd::arithmetic::div_mod::lemma_fundamental_div_mod_converse;
use vstd::arithmetic::div_mod::lemma_mod_pos_bound;
use vstd::arithmetic::div_mod::lemma_small_mod;

verus! {

/// How far the centering shift rotates a row of length `len`: half the
/// length, rounded up, so that for odd lengths the single middle element
/// moves as well.
pub open spec fn shift_amount(len: int) -> int {
    (len + 1) / 2
}

/// `s` rotated left by `k` places: element `i` of the result is element
/// `(i + k) % len` of `s`.
pub open spec fn rotated<T>(s: Seq<T>, k: int) -> Seq<T> {
    Seq::new(s.len(), |i: int| s[(i + k) % (s.len() as int)])
}

/// The transposition of a row-major `width x height` matrix (`height` rows
/// of `width` columns): a row-major `height x width` matrix in which the
/// cell in row `j`, column `i` is the source cell in row `i`, column `j`.
pub open spec fn transposed<T>(width: int, height: int, m: Seq<T>) -> Seq<T> {
    Seq::new((width * height) as nat, |p: int| m[(p % height) * width + p / height])
}

/// Swap the two halves of a row so that the element at the rounded-up
/// midpoint moves to the front: the centering shift applied after each
/// 1-D transform pass, which lands the zero-frequency component in the
/// middle of the row. For even lengths this is a plain half swap; for odd
/// lengths the rotation also carries the single middle element.
pub fn fft_shift<T: Copy>(data: &mut Vec<T>)
    ensures
        final(data)@ == rotated(old(data)@, shift_amount(old(data)@.len() as int)),
{
    let ghost orig = data@;
    let n = data.len();
    let mid = n / 2;
    if n % 2 == 0 {
        for k in 0..mid
            invariant
                data@.len() == n,
                orig.len() == n,
                mid == n / 2,
                n % 2 == 0,
                forall|t: int| 0 <= t < k ==> data@[t] == orig[mid + t],
                forall|u: int| mid <= u < mid + k ==> data@[u] == orig[u - mid],
                forall|t: int| k <= t < mid ==> data@[t] == orig[t],
                forall|u: int| mid + k <= u < n ==> data@[u] == orig[u],
        {
            let i2 = mid + k;
            let a = data[k];
            let b = data[i2];
            data[k] = b;
            data[i2] = a;
        }
        proof {
            assert forall|i: int| 0 <= i < n implies data@[i] == rotated(orig, shift_amount(
                n as int,
            ))[i] by {
                assert(shift_amount(n as int) == mid);
                if i < mid {
                    lemma_small_mod((i + mid) as nat, n as nat);
                } else {
                    lemma_fundamental_div_mod_converse(i + mid, n as int, 1, i - mid);
                }
            }
            assert(data@ =~= rotated(orig, shift_amount(orig.len() as int)));
        }
    } else {
        for k in 0..mid
            invariant
                data@.len() == n,
                orig.len() == n,
                mid == n / 2,
                n % 2 == 1,
                n == 2 * mid + 1,
                forall|t: int| 0 <= t < k ==> data@[t] == orig[mid + 1 + t],
                forall|u: int| mid <= u < mid + k ==> data@[u] == orig[u - mid],
                data@[mid + k] == orig[mid as int],
                forall|u: int| mid + k < u < n ==> data@[u] == orig[u],
                forall|t: int| k <= t < mid ==> data@[t] == orig[t],
        {
            let i2 = mid + k;
            let a = data[k];
            let b = data[i2];
            data[k] = b;
            data[i2] = a;
            let c = data[k];
            let d = data[i2 + 1];
            data[k] = d;
            data[i2 + 1] = c;
        }
        proof {
            assert forall|i: int| 0 <= i < n implies data@[i] == rotated(orig, shift_amount(
                n as int,
            ))[i] by {
                assert(shift_amount(n as int) == mid + 1);
                if i < mid {
                    lemma_small_mod((i + mid + 1) as nat, n as nat);
                } else {
                    lemma_fundamental_div_mod_converse(i + mid + 1, n as int, 1, i - mid);
                }
            }
            assert(data@ =~= rotated(orig, shift_amount(orig.len() as int)));
        }
    }
}

/// Transpose a row-major `width x height` matrix, exchanging rows and
/// columns, so that a pass over the rows of the result visits the columns
/// of the source.
pub fn transpose<T: Copy>(width: usize, height: usize, matrix: &[T]) -> (t: Vec<T>)
    requires
        matrix@.len() == width * height,
    ensures
        t@ == transposed(width as int, height as int, matrix@),
{
    let ghost target = transposed(width as int, height as int, matrix@);
    let n = matrix.len();
    let mut t: Vec<T> = Vec::new();
    proof {
        assert(0 * height == 0) by (nonlinear_arith);
        assert(0 * height <= width * height) by (nonlinear_arith);
    }
    for j in 0..width
        invariant
            matrix@.len() == n == width * height,
            target == transposed(width as int, height as int, matrix@),
            target.len() == width * height,
            t@.len() == j * height,
            j * height <= width * height,
            forall|p: int| 0 <= p < t@.len() ==> t@[p] == target[p],
    {
        for i in 0..height
            invariant
                matrix@.len() == n == width * height,
                target == transposed(width as int, height as int, matrix@),
                target.len() == width * height,
                j < width,
                t@.len() == j * height + i,
                j * height + i <= width * height,
                forall|p: int| 0 <= p < t@.len() ==> t@[p] == target[p],
        {
            proof {
                assert(i * width + j < height * width) by (nonlinear_arith)
                    requires
                        0 <= i < height,
                        0 <= j < width,
                ;
                assert(height * width == width * height) by (nonlinear_arith);
                assert(j * height + i < width * height) by (nonlinear_arith)
                    requires
                        0 <= i < height,
                        0 <= j < width,
                ;
                lemma_fundamental_div_mod_converse(
                    j * height + i,
                    height as int,
                    j as int,
                    i as int,
                );
                assert(target[j * height + i] == matrix@[i * width + j]);
                assert(j * height + i + 1 <= width * height) by (nonlinear_arith)
                    requires
                        0 <= i < height,
                        0 <= j < width,
                ;
            }
            t.push(matrix[i * width + j]);
        }
        proof {
            assert(j * height + height == (j + 1) * height) by (nonlinear_arith);
            assert((j + 1) * height <= width * height) by (nonlinear_arith)
                requires
                    0 <= j < width,
            ;
        }
    }
    proof {
        assert(t@.len() == width * height);
        assert(t@ =~= target);
    }
    t
}

/// Rotating by `a` and then by `b` is one rotation by `(a + b) % len`.
pub proof fn lemma_rotated_compose<T>(s: Seq<T>, a: int, b: int)
    requires
        s.len() > 0,
        0 <= a,
        0 <= b,
    ensures
        rotated(rotated(s, a), b) == rotated(s, (a + b) % (s.len() as int)),
{
    let n = s.len() as int;
    assert forall|i: int| 0 <= i < n implies rotated(rotated(s, a), b)[i] == rotated(
        s,
        (a + b) % n,
    )[i] by {
        let j = (i + b) % n;
        lemma_mod_pos_bound(i + b, n);
        assert(rotated(rotated(s, a), b)[i] == s[(j + a) % n]);
        lemma_add_mod_noop_right(a, i + b, n);
        assert((a + j) % n == (a + (i + b)) % n);
        lemma_small_mod(i as nat, n as nat);
        lemma_add_mod_noop_right(i, a + b, n);
        assert((i + (a + b) % n) % n == (i + (a + b)) % n);
    }
    assert(rotated(rotated(s, a), b) =~= rotated(s, (a + b) % (s.len() as int)));
}

/// The centering shift is its own inverse on rows of even length: applied
/// twice it rotates by the full length, which restores the original order.
/// This is the permutation half of the transform round trip.
pub proof fn lemma_shift_twice_even<T>(s: Seq<T>)
    requires
        s.len() % 2 == 0,
    ensures
        rotated(rotated(s, shift_amount(s.len() as int)), shift_amount(s.len() as int)) == s,
{
    let n = s.len() as int;
    if n == 0 {
        assert(rotated(rotated(s, shift_amount(0)), shift_amount(0)) =~= s);
    } else {
        let m = shift_amount(n);
        assert(m + m == n);
        lemma_rotated_compose(s, m, m);
        vstd::arithmetic::div_mod::lemma_mod_self_0(n);
        assert forall|i: int| 0 <= i < n implies rotated(s, 0)[i] == s[i] by {
            lemma_small_mod(i as nat, n as nat);
        }
        assert(rotated(s, 0) =~= s);
    }
}

/// On rows of odd length the centering shift is not an involution: applied
/// twice it rotates the row by exactly one place. The transform pipeline
/// therefore restores odd-length rows only up to this single-place
/// rotation, which the final magnitude step sees as a shifted copy.
pub proof fn lemma_shift_twice_odd<T>(s: Seq<T>)
    requires
        s.len() % 2 == 1,
    ensures
        rotated(rotated(s, shift_amount(s.len() as int)), shift_amount(s.len() as int)) == rotated(
            s,
            1,
        ),
{
    let n = s.len() as int;
    let m = shift_amount(n);
    assert(m + m == n + 1);
    lemma_rotated_compose(s, m, m);
    if n == 1 {
        assert((m + m) % n == 0);
        assert(rotated(s, 0) =~= rotated(s, 1));
    } else {
        lemma_fundamental_div_mod_converse(n + 1, n, 1, 1);
        assert((m + m) % n == 1);
    }
}

/// Transposing twice restores the original matrix: the structural half of
/// the row-pass / column-pass symmetry of the separable 2-D transform.
pub proof fn lemma_transpose_involution<T>(width: int, height: int, m: Seq<T>)
    requires
        width >= 0,
        height >= 0,
        m.len() == width * height,
    ensures
        transposed(height, width, transposed(width, height, m)) == m,
{
    let t1 = transposed(width, height, m);
    let t2 = transposed(height, width, t1);
    assert(height * width == width * height) by (nonlinear_arith);
    if width == 0 || height == 0 {
        assert(t2 =~= m);
    } else {
        assert forall|q: int| 0 <= q < m.len() implies t2[q] == m[q] by {
            let j = q % width;
            let i = q / width;
            lemma_mod_pos_bound(q, width);
            vstd::arithmetic::div_mod::lemma_fundamental_div_mod(q, width);
            assert(0 <= i < height) by (nonlinear_arith)
                requires
                    q == width * i + j,
                    0 <= q < width * height,
                    0 <= j < width,
                    width > 0,
                    height > 0,
            ;
            let p = j * height + i;
            assert(0 <= p < height * width) by (nonlinear_arith)
                requires
                    p == j * height + i,
                    0 <= j < width,
                    0 <= i < height,
            ;
            assert(t2[q] == t1[p]);
            lemma_fundamental_div_mod_converse(p, height, j, i);
            assert(t1[p] == m[i * width + j]);
            assert(m[i * width + j] == m[q]);
        }
        assert(t2 =~= m);
    }
}

} // verus!
