//! Linear algebra over GF(2): the order of GL(n,2), invertibility of bit-packed
//! matrices, and the complete solution space of a linear system `A x = b`.

use vstd::prelude::*;
use vstd::arithmetic::power2::*;

verus! {

// ---------------------------------------------------------------------------
// The model: bit-packed rows and GF(2) dot products
// ---------------------------------------------------------------------------

/// Bit `j` of a packed row.
pub open spec fn bit(r: u64, j: int) -> bool {
    0 <= j < 64 && ((r >> (j as u64)) & 1u64) == 1u64
}

/// The GF(2) dot product of the low `w` bits of `r` with `x`.
pub open spec fn dot(r: u64, x: Seq<bool>, w: nat) -> bool
    decreases w,
{
    if w == 0 {
        false
    } else {
        dot(r, x, (w - 1) as nat) != (bit(r, w - 1) && x[w - 1])
    }
}

/// Every row of `rows` has a zero dot product with `x` over the low `w` columns.
pub open spec fn all_zero(rows: Seq<u64>, x: Seq<bool>, w: nat) -> bool {
    forall|i: int| 0 <= i < rows.len() ==> !dot(#[trigger] rows[i], x, w)
}

/// `x` (of length `n`) solves the first `m` equations `dot(rows[i], x) = rhs[i]`.
pub open spec fn is_solution(rows: Seq<u64>, rhs: Seq<bool>, m: nat, n: nat, x: Seq<bool>) -> bool {
    &&& x.len() == n
    &&& forall|i: int| 0 <= i < m ==> dot(#[trigger] rows[i], x, n) == rhs[i]
}

/// The number of equations a system of `rows` and `rhs` holds: the shorter of the two.
pub open spec fn num_eqs(rows: Seq<u64>, rhs: Seq<bool>) -> nat {
    if rows.len() <= rhs.len() { rows.len() } else { rhs.len() }
}

/// `x` is in the kernel of the first `m` rows over the low `n` columns.
pub open spec fn in_kernel(rows: Seq<u64>, m: nat, n: nat, x: Seq<bool>) -> bool {
    &&& x.len() == n
    &&& forall|i: int| 0 <= i < m ==> !dot(#[trigger] rows[i], x, n)
}

/// The zero vector of length `n`.
pub open spec fn is_zero_vec(x: Seq<bool>) -> bool {
    forall|j: int| 0 <= j < x.len() ==> !#[trigger] x[j]
}

/// A square-or-not matrix has full column rank `n` exactly when its kernel is trivial.
pub open spec fn full_column_rank(rows: Seq<u64>, n: nat) -> bool {
    forall|x: Seq<bool>| #[trigger] in_kernel(rows, rows.len(), n, x) ==> is_zero_vec(x)
}

/// Coordinatewise XOR of the first `nv` coordinates of `y` into `x`.
pub open spec fn xor_prefix(x: Seq<bool>, y: Seq<bool>, nv: nat) -> Seq<bool> {
    Seq::new(x.len(), |j: int| if j < nv { x[j] != y[j] } else { x[j] })
}

// ---------------------------------------------------------------------------
// Lemmas
// ---------------------------------------------------------------------------

proof fn lemma_bit_xor(a: u64, b: u64, j: int)
    ensures
        bit(a ^ b, j) == (bit(a, j) != bit(b, j)),
{
    if 0 <= j < 64 {
        let s = j as u64;
        assert(((((a ^ b) >> s) & 1u64) == 1u64) == (((a >> s) & 1u64 == 1u64) != ((b >> s) & 1u64 == 1u64)))
            by (bit_vector);
    }
}

/// The dot product is linear in the row.
proof fn lemma_dot_xor_row(a: u64, b: u64, x: Seq<bool>, w: nat)
    ensures
        dot(a ^ b, x, w) == (dot(a, x, w) != dot(b, x, w)),
    decreases w,
{
    if w > 0 {
        lemma_dot_xor_row(a, b, x, (w - 1) as nat);
        lemma_bit_xor(a, b, w - 1);
    }
}

/// The dot product is linear in the vector.
proof fn lemma_dot_xor_vec(r: u64, x: Seq<bool>, y: Seq<bool>, nv: nat, w: nat)
    requires
        w <= nv,
        w <= x.len(),
        x.len() == y.len(),
    ensures
        dot(r, xor_prefix(x, y, nv), w) == (dot(r, x, w) != dot(r, y, w)),
    decreases w,
{
    if w > 0 {
        lemma_dot_xor_vec(r, x, y, nv, (w - 1) as nat);
    }
}

/// Only the bits of `r` at positions where `x` is set matter.
proof fn lemma_dot_ext(r1: u64, x1: Seq<bool>, r2: u64, x2: Seq<bool>, w: nat)
    requires
        forall|j: int| 0 <= j < w ==> (bit(r1, j) && x1[j]) == (bit(r2, j) && x2[j]),
    ensures
        dot(r1, x1, w) == dot(r2, x2, w),
    decreases w,
{
    if w > 0 {
        lemma_dot_ext(r1, x1, r2, x2, (w - 1) as nat);
    }
}

/// No position contributes: the dot product is zero.
proof fn lemma_dot_none(r: u64, x: Seq<bool>, w: nat)
    requires
        forall|j: int| 0 <= j < w ==> !(bit(r, j) && x[j]),
    ensures
        !dot(r, x, w),
    decreases w,
{
    if w > 0 {
        lemma_dot_none(r, x, (w - 1) as nat);
    }
}

/// Only position `a` may contribute: the dot product is its contribution.
proof fn lemma_dot_one(r: u64, x: Seq<bool>, w: nat, a: int)
    requires
        0 <= a < w,
        forall|j: int| 0 <= j < w && j != a ==> !(bit(r, j) && x[j]),
    ensures
        dot(r, x, w) == (bit(r, a) && x[a]),
    decreases w,
{
    if w - 1 == a {
        lemma_dot_none(r, x, (w - 1) as nat);
    } else {
        lemma_dot_one(r, x, (w - 1) as nat, a);
    }
}

/// Only positions `a` and `b` may contribute, and they contribute alike: the dot product is zero.
proof fn lemma_dot_two(r: u64, x: Seq<bool>, w: nat, a: int, b: int)
    requires
        0 <= a < w,
        0 <= b < w,
        a != b,
        forall|j: int| 0 <= j < w && j != a && j != b ==> !(bit(r, j) && x[j]),
        (bit(r, a) && x[a]) == (bit(r, b) && x[b]),
    ensures
        !dot(r, x, w),
    decreases w,
{
    if w - 1 == a {
        lemma_dot_one(r, x, (w - 1) as nat, b);
    } else if w - 1 == b {
        lemma_dot_one(r, x, (w - 1) as nat, a);
    } else {
        lemma_dot_two(r, x, (w - 1) as nat, a, b);
    }
}

/// Appending a coordinate set to `b` adds bit `w` of the row times `b`.
proof fn lemma_dot_extend(r: u64, x: Seq<bool>, w: nat, b: bool)
    requires
        x.len() == w,
    ensures
        dot(r, x.push(b), w + 1) == (dot(r, x, w) != (bit(r, w as int) && b)),
{
    lemma_dot_ext(r, x.push(b), r, x, w);
}

/// Swapping two rows or XOR-ing one row into another keeps the set of vectors every row
/// annihilates.
proof fn lemma_xor_row_preserves(rows: Seq<u64>, r: int, k: int, x: Seq<bool>, w: nat)
    requires
        0 <= r < rows.len(),
        0 <= k < rows.len(),
        r != k,
    ensures
        all_zero(rows.update(r, rows[r] ^ rows[k]), x, w) == all_zero(rows, x, w),
{
    let new = rows.update(r, rows[r] ^ rows[k]);
    lemma_dot_xor_row(rows[r], rows[k], x, w);
    if all_zero(rows, x, w) {
        assert forall|i: int| 0 <= i < new.len() implies !dot(#[trigger] new[i], x, w) by {
            if i != r {
                assert(new[i] == rows[i]);
            } else {
                assert(!dot(rows[r], x, w));
                assert(!dot(rows[k], x, w));
            }
        }
    }
    if all_zero(new, x, w) {
        assert forall|i: int| 0 <= i < rows.len() implies !dot(#[trigger] rows[i], x, w) by {
            if i != r {
                assert(new[i] == rows[i]);
            } else {
                assert(!dot(new[r], x, w));
                assert(new[k] == rows[k]);
                assert(!dot(new[k], x, w));
            }
        }
    }
}

proof fn lemma_swap_preserves(rows: Seq<u64>, a: int, b: int, x: Seq<bool>, w: nat)
    requires
        0 <= a < rows.len(),
        0 <= b < rows.len(),
    ensures
        all_zero(rows.update(a, rows[b]).update(b, rows[a]), x, w) == all_zero(rows, x, w),
{
    let new = rows.update(a, rows[b]).update(b, rows[a]);
    if all_zero(rows, x, w) {
        assert forall|i: int| 0 <= i < new.len() implies !dot(#[trigger] new[i], x, w) by {
            if i == b {
                assert(!dot(rows[a], x, w));
            } else if i == a {
                assert(!dot(rows[b], x, w));
            } else {
                assert(!dot(rows[i], x, w));
            }
        }
    }
    if all_zero(new, x, w) {
        assert forall|i: int| 0 <= i < rows.len() implies !dot(#[trigger] rows[i], x, w) by {
            if i == b {
                assert(!dot(new[a], x, w));
            } else if i == a {
                assert(!dot(new[b], x, w));
            } else {
                assert(!dot(new[i], x, w));
            }
        }
    }
}

// ---------------------------------------------------------------------------
// Gaussian elimination
// ---------------------------------------------------------------------------

/// `rows` is in reduced row echelon form over the columns below `col`, with pivot columns
/// `piv`: each pivot row has a 1 in its pivot column, every other row a 0 there, and the
/// rows below the pivots are zero in every column below `col`.
pub open spec fn echelon(rows: Seq<u64>, piv: Seq<usize>, col: nat) -> bool {
    &&& piv.len() <= rows.len()
    &&& piv.len() <= col
    &&& forall|k: int| 0 <= k < piv.len() ==> #[trigger] piv[k] < col
    &&& forall|a: int, b: int| 0 <= a < b < piv.len() ==> piv[a] < piv[b]
    &&& forall|k: int| 0 <= k < piv.len() ==> bit(#[trigger] rows[k], piv[k] as int)
    &&& forall|k: int, r: int|
        0 <= k < piv.len() && 0 <= r < rows.len() && r != k ==> !bit(#[trigger] rows[r], #[trigger] piv[k] as int)
    &&& forall|r: int, c: int| piv.len() <= r < rows.len() && 0 <= c < col ==> !#[trigger] bit(rows[r], c)
    &&& forall|k: int, c: int| 0 <= k < piv.len() && 0 <= c < piv[k] ==> !#[trigger] bit(rows[k], c)
}

/// Both row sets annihilate exactly the same vectors, over every width.
pub open spec fn same_kernels(a: Seq<u64>, b: Seq<u64>) -> bool {
    forall|x: Seq<bool>, w: nat| #[trigger] all_zero(a, x, w) == all_zero(b, x, w)
}

/// Reduce `rows` to reduced row echelon form over its low `n` columns by row swaps and
/// row additions, returning the pivot column of each leading row.
fn eliminate(rows: &mut Vec<u64>, n: usize) -> (piv: Vec<usize>)
    requires
        n <= 64,
    ensures
        final(rows)@.len() == old(rows)@.len(),
        echelon(final(rows)@, piv@, n as nat),
        same_kernels(final(rows)@, old(rows)@),
{
    let ghost orig = rows@;
    let m = rows.len();
    let mut piv: Vec<usize> = Vec::new();
    let mut rank: usize = 0;
    let mut col: usize = 0;
    while col < n
        invariant
            n <= 64,
            col <= n,
            rows@.len() == m,
            orig.len() == m,
            rank == piv@.len(),
            echelon(rows@, piv@, col as nat),
            same_kernels(rows@, orig),
        decreases n - col,
    {
        let mut p: usize = rank;
        while p < m && (rows[p] >> (col as u64)) & 1u64 != 1u64
            invariant
                rank <= p <= m,
                rows@.len() == m,
                col < 64,
                forall|q: int| rank <= q < p ==> !bit(#[trigger] rows@[q], col as int),
            decreases m - p,
        {
            p += 1;
        }
        if p < m {
            assert(bit(rows@[p as int], col as int));
            let ghost before_swap = rows@;
            let a = rows[rank];
            let b = rows[p];
            rows.set(rank, b);
            rows.set(p, a);
            proof {
                assert(rows@ == before_swap.update(rank as int, before_swap[p as int]).update(p as int, before_swap[rank as int]));
                assert forall|x: Seq<bool>, w: nat| #[trigger] all_zero(rows@, x, w) == all_zero(orig, x, w) by {
                    lemma_swap_preserves(before_swap, rank as int, p as int, x, w);
                    assert(all_zero(before_swap, x, w) == all_zero(orig, x, w));
                }
            }
            let pivot_row = rows[rank];
            let ghost base = rows@;
            let mut r: usize = 0;
            while r < m
                invariant
                    col < 64,
                    rank < m,
                    rows@.len() == m,
                    base.len() == m,
                    rows@[rank as int] == pivot_row,
                    bit(pivot_row, col as int),
                    forall|c: int| 0 <= c < col ==> !bit(pivot_row, c),
                    forall|q: int, c: int| 0 <= q < m && 0 <= c < col ==> #[trigger] bit(rows@[q], c) == bit(base[q], c),
                    forall|q: int| 0 <= q < r && q != rank ==> !bit(#[trigger] rows@[q], col as int),
                    forall|q: int| r <= q < m ==> #[trigger] rows@[q] == base[q],
                    same_kernels(rows@, orig),
                decreases m - r,
            {
                if r != rank && (rows[r] >> (col as u64)) & 1u64 == 1u64 {
                    let ghost before = rows@;
                    let v = rows[r] ^ pivot_row;
                    rows.set(r, v);
                    proof {
                        assert(rows@ == before.update(r as int, before[r as int] ^ before[rank as int]));
                        assert forall|x: Seq<bool>, w: nat| #[trigger] all_zero(rows@, x, w) == all_zero(orig, x, w) by {
                            lemma_xor_row_preserves(before, r as int, rank as int, x, w);
                            assert(all_zero(before, x, w) == all_zero(orig, x, w));
                        }
                        lemma_bit_xor(before[r as int], pivot_row, col as int);
                        assert forall|c: int| 0 <= c < col implies bit(rows@[r as int], c) == bit(base[r as int], c) by {
                            lemma_bit_xor(before[r as int], pivot_row, c);
                        }
                    }
                }
                r += 1;
            }
            proof {
                assert forall|k: int| 0 <= k < piv@.len() implies bit(#[trigger] rows@[k], piv@[k] as int) by {
                    assert(piv@[k] < col);
                }
                assert forall|k: int, c: int| 0 <= k < piv@.len() && 0 <= c < piv@[k] implies !#[trigger] bit(rows@[k], c) by {
                    assert(piv@[k] < col);
                    assert(base[k] == before_swap[k]);
                    assert(bit(rows@[k], c) == bit(base[k], c));
                }
            }
            piv.push(col);
            rank += 1;
        }
        col += 1;
    }
    piv
}

/// In a strictly increasing sequence, entries at least `b - a` apart in position are at least
/// `b - a` apart in value.
proof fn lemma_strict_gap(piv: Seq<usize>, a: int, b: int)
    requires
        0 <= a <= b < piv.len(),
        forall|i: int, j: int| 0 <= i < j < piv.len() ==> piv[i] < piv[j],
    ensures
        piv[b] - piv[a] >= b - a,
    decreases b - a,
{
    if a < b {
        lemma_strict_gap(piv, a, b - 1);
        assert(piv[b - 1] < piv[b]);
    }
}

/// A strictly increasing sequence of fewer than `n` columns below `n` misses some column `f`,
/// which is then no pivot.
proof fn lemma_free_column(piv: Seq<usize>, n: nat) -> (f: int)
    requires
        piv.len() < n,
        forall|k: int| 0 <= k < piv.len() ==> #[trigger] piv[k] < n,
        forall|i: int, j: int| 0 <= i < j < piv.len() ==> piv[i] < piv[j],
    ensures
        0 <= f < n,
        forall|k: int| 0 <= k < piv.len() ==> #[trigger] piv[k] != f,
{
    if forall|k: int| 0 <= k < piv.len() ==> #[trigger] piv[k] == k {
        piv.len() as int
    } else {
        let k0 = choose|k: int| 0 <= k < piv.len() && #[trigger] piv[k] != k;
        let f = lemma_first_off_diagonal(piv, k0);
        assert forall|k: int| 0 <= k < piv.len() implies #[trigger] piv[k] != f by {
            if k < f {
                assert(piv[k] == k);
            } else if k > f {
                lemma_strict_gap(piv, f, k);
                lemma_strict_gap(piv, 0, f);
            } else {
                lemma_strict_gap(piv, 0, f);
            }
        }
        f
    }
}

/// The first position of a strictly increasing sequence whose entry is not its own index.
proof fn lemma_first_off_diagonal(piv: Seq<usize>, k0: int) -> (f: int)
    requires
        0 <= k0 < piv.len(),
        piv[k0] != k0,
    ensures
        0 <= f <= k0,
        piv[f] != f,
        forall|k: int| 0 <= k < f ==> #[trigger] piv[k] == k,
    decreases k0,
{
    if forall|k: int| 0 <= k < k0 ==> #[trigger] piv[k] == k {
        k0
    } else {
        let k1 = choose|k: int| 0 <= k < k0 && #[trigger] piv[k] != k;
        lemma_first_off_diagonal(piv, k1)
    }
}

/// The kernel vector of a reduced system for the free column `f`: `f` set, each pivot column
/// set to its row's coefficient at `f`, every other free column clear.
pub open spec fn kernel_vec(red: Seq<u64>, piv: Seq<usize>, n: nat, f: int) -> Seq<bool> {
    Seq::new(n, |j: int| j == f || exists|k: int| 0 <= k < piv.len() && piv[k] == j && #[trigger] bit(red[k], f))
}

/// The kernel vector of a free column is annihilated by every reduced row.
proof fn lemma_kernel_vec(red: Seq<u64>, piv: Seq<usize>, n: nat, f: int)
    requires
        echelon(red, piv, n),
        0 <= f < n,
        forall|k: int| 0 <= k < piv.len() ==> #[trigger] piv[k] != f,
    ensures
        all_zero(red, kernel_vec(red, piv, n, f), n),
        kernel_vec(red, piv, n, f)[f],
        kernel_vec(red, piv, n, f).len() == n,
        forall|k: int| 0 <= k < piv.len() ==> kernel_vec(red, piv, n, f)[piv[k] as int] == bit(red[k], f),
        forall|j: int| 0 <= j < n && j != f && (forall|k: int| 0 <= k < piv.len() ==> #[trigger] piv[k] != j)
            ==> !kernel_vec(red, piv, n, f)[j],
{
    let kv = kernel_vec(red, piv, n, f);
    assert forall|k: int| 0 <= k < piv.len() implies kv[piv[k] as int] == bit(red[k], f) by {
        if bit(red[k], f) {
            assert(piv[k] == piv[k] && bit(red[k], f));
        } else if kv[piv[k] as int] {
            let k2 = choose|k2: int| 0 <= k2 < piv.len() && piv[k2] == piv[k] && #[trigger] bit(red[k2], f);
            if k2 < k {
                assert(piv[k2] < piv[k]);
            } else if k2 > k {
                assert(piv[k] < piv[k2]);
            }
        }
    }
    assert forall|i: int| 0 <= i < red.len() implies !dot(#[trigger] red[i], kv, n) by {
        if i < piv.len() {
            assert forall|j: int| 0 <= j < n && j != f && j != piv[i] implies !(bit(red[i], j) && kv[j]) by {
                if kv[j] {
                    let k2 = choose|k2: int| 0 <= k2 < piv.len() && piv[k2] == j && #[trigger] bit(red[k2], f);
                    assert(!bit(red[i], piv[k2] as int));
                }
            }
            lemma_dot_two(red[i], kv, n, f, piv[i] as int);
        } else {
            lemma_dot_none(red[i], kv, n);
        }
    }
}

/// Is an n x n GF(2) matrix (each row packed as the low `n` bits of a `u64`) invertible?
/// Gaussian elimination: invertible exactly when it reduces to full rank `n`, that is, when
/// no nonzero vector is annihilated by every row.
pub fn is_invertible_gf2(n: u32, rows: &[u64]) -> (r: bool)
    requires
        n <= 64,
    ensures
        r == full_column_rank(rows@, n as nat),
{
    let mut red = vstd::slice::slice_to_vec(rows);
    let ghost orig = red@;
    let piv = eliminate(&mut red, n as usize);
    let rank = piv.len();
    proof {
        if rank == n as usize {
            assert forall|k: int| 0 <= k < piv@.len() implies #[trigger] piv@[k] == k by {
                lemma_strict_gap(piv@, 0, k);
                lemma_strict_gap(piv@, k, piv@.len() - 1);
            }
            assert forall|x: Seq<bool>| #[trigger] in_kernel(rows@, rows@.len(), n as nat, x) implies is_zero_vec(x) by {
                assert(all_zero(orig, x, n as nat));
                assert(all_zero(red@, x, n as nat));
                assert forall|j: int| 0 <= j < x.len() implies !#[trigger] x[j] by {
                    assert(piv@[j] == j);
                    assert forall|c: int| 0 <= c < n && c != j implies !(bit(red@[j], c) && x[c]) by {
                        assert(piv@[c] == c);
                    }
                    lemma_dot_one(red@[j], x, n as nat, j);
                    assert(!dot(red@[j], x, n as nat));
                }
            }
        } else {
            let f = lemma_free_column(piv@, n as nat);
            lemma_kernel_vec(red@, piv@, n as nat, f);
            let kv = kernel_vec(red@, piv@, n as nat, f);
            assert(all_zero(orig, kv, n as nat));
            assert(in_kernel(rows@, rows@.len(), n as nat, kv));
            assert(!is_zero_vec(kv));
        }
    }
    rank == n as usize
}

/// Bits of an augmented row: the low `n` bits are the coefficients, bit `n` the right-hand side.
proof fn lemma_aug_bits(c: u64, b: bool, n: u64, mask: u64, aug: u64)
    requires
        n < 64,
        mask == (1u64 << n) - 1,
        aug == ((c & mask) | (if b { 1u64 << n } else { 0u64 })),
    ensures
        forall|j: int| 0 <= j < n ==> #[trigger] bit(aug, j) == bit(c, j),
        bit(aug, n as int) == b,
{
    assert forall|j: int| 0 <= j < n implies #[trigger] bit(aug, j) == bit(c, j) by {
        let s = j as u64;
        if b {
            assert(s < n && mask == (1u64 << n) - 1 && aug == ((c & mask) | (1u64 << n))
                ==> (((aug >> s) & 1u64) == ((c >> s) & 1u64))) by (bit_vector);
        } else {
            assert(s < n && mask == (1u64 << n) - 1 && aug == ((c & mask) | 0u64)
                ==> (((aug >> s) & 1u64) == ((c >> s) & 1u64))) by (bit_vector);
        }
    }
    if b {
        assert(n < 64 && mask == (1u64 << n) - 1 && aug == ((c & mask) | (1u64 << n)) ==> ((aug >> n) & 1u64) == 1u64)
            by (bit_vector);
    } else {
        assert(n < 64 && mask == (1u64 << n) - 1 && aug == ((c & mask) | 0u64) ==> ((aug >> n) & 1u64) == 0u64)
            by (bit_vector);
    }
}

/// A row whose low `n` bits are all clear.
proof fn lemma_mask_zero(r: u64, n: u64, mask: u64)
    requires
        n < 64,
        mask == (1u64 << n) - 1,
    ensures
        (r & mask == 0) == (forall|j: int| 0 <= j < n ==> !#[trigger] bit(r, j)),
{
    if r & mask == 0 {
        assert forall|j: int| 0 <= j < n implies !#[trigger] bit(r, j) by {
            let s = j as u64;
            assert(s < n && n < 64 && mask == (1u64 << n) - 1 && r & mask == 0 ==> ((r >> s) & 1u64) != 1u64)
                by (bit_vector);
        }
    } else {
        let low = lemma_lowest_set(r, n, mask);
        assert(bit(r, low as int));
    }
}

/// A row with some low bit set has a lowest one.
proof fn lemma_lowest_set(r: u64, n: u64, mask: u64) -> (j: u64)
    requires
        n < 64,
        mask == (1u64 << n) - 1,
        r & mask != 0,
    ensures
        j < n,
        (r >> j) & 1u64 == 1u64,
    decreases n,
{
    assert(n < 64 && mask == (1u64 << n) - 1 && r & mask != 0 ==> n > 0) by (bit_vector);
    if (r >> ((n - 1) as u64)) & 1u64 == 1u64 {
        (n - 1) as u64
    } else {
        let n1 = (n - 1) as u64;
        let m2 = ((1u64 << n1) - 1) as u64;
        assert(n1 < 64 ==> (1u64 << n1) >= 1) by (bit_vector);
        assert(n < 64 && n1 + 1 == n && mask == (1u64 << n) - 1 && r & mask != 0 && (r >> n1) & 1u64 != 1u64
            && m2 == ((1u64 << n1) - 1) as u64 ==> r & m2 != 0) by (bit_vector);
        lemma_lowest_set(r, n1, m2)
    }
}

/// A row with no coefficient set contributes exactly its right-hand side bit.
proof fn lemma_dot_rhs_only(r: u64, y: Seq<bool>, n: nat)
    requires
        y.len() == n + 1,
        y[n as int],
        forall|j: int| 0 <= j < n ==> !#[trigger] bit(r, j),
    ensures
        dot(r, y, n + 1) == bit(r, n as int),
{
    lemma_dot_one(r, y, n + 1, n as int);
}

/// `orig` holds the augmented rows of the system: the coefficients of `rows` below bit `n`, and
/// the right-hand side at bit `n`.
pub open spec fn augmented(orig: Seq<u64>, rows: Seq<u64>, rhs: Seq<bool>, n: nat) -> bool {
    &&& orig.len() == num_eqs(rows, rhs)
    &&& forall|k: int, j: int| 0 <= k < orig.len() && 0 <= j < n ==> #[trigger] bit(orig[k], j) == bit(rows[k], j)
    &&& forall|k: int| 0 <= k < orig.len() ==> bit(#[trigger] orig[k], n as int) == rhs[k]
}

/// The augmented rows annihilate `x` extended by a set bit exactly when `x` solves the system.
proof fn lemma_aug_solution(orig: Seq<u64>, rows: Seq<u64>, rhs: Seq<bool>, n: nat, x: Seq<bool>)
    requires
        augmented(orig, rows, rhs, n),
        x.len() == n,
    ensures
        is_solution(rows, rhs, num_eqs(rows, rhs), n, x) == all_zero(orig, x.push(true), n + 1),
{
    let m = num_eqs(rows, rhs);
    assert forall|k: int| 0 <= k < m implies #[trigger] dot(orig[k], x.push(true), n + 1)
        == (dot(rows[k], x, n) != rhs[k]) by {
        lemma_dot_extend(orig[k], x, n, true);
        lemma_dot_ext(orig[k], x, rows[k], x, n);
    }
    if is_solution(rows, rhs, m, n, x) {
        assert forall|k: int| 0 <= k < orig.len() implies !dot(#[trigger] orig[k], x.push(true), n + 1) by {
            assert(dot(rows[k], x, n) == rhs[k]);
        }
    }
    if all_zero(orig, x.push(true), n + 1) {
        assert forall|k: int| 0 <= k < m implies dot(#[trigger] rows[k], x, n) == rhs[k] by {
            assert(!dot(orig[k], x.push(true), n + 1));
        }
    }
}

/// The augmented rows annihilate `x` extended by a clear bit exactly when `x` is in the kernel.
proof fn lemma_aug_kernel(orig: Seq<u64>, rows: Seq<u64>, rhs: Seq<bool>, n: nat, x: Seq<bool>)
    requires
        augmented(orig, rows, rhs, n),
        x.len() == n,
    ensures
        in_kernel(rows, num_eqs(rows, rhs), n, x) == all_zero(orig, x.push(false), n + 1),
{
    let m = num_eqs(rows, rhs);
    assert forall|k: int| 0 <= k < m implies #[trigger] dot(orig[k], x.push(false), n + 1) == dot(rows[k], x, n) by {
        lemma_dot_extend(orig[k], x, n, false);
        lemma_dot_ext(orig[k], x, rows[k], x, n);
    }
    if in_kernel(rows, m, n, x) {
        assert forall|k: int| 0 <= k < orig.len() implies !dot(#[trigger] orig[k], x.push(false), n + 1) by {
            assert(!dot(rows[k], x, n));
        }
    }
    if all_zero(orig, x.push(false), n + 1) {
        assert forall|k: int| 0 <= k < m implies !dot(#[trigger] rows[k], x, n) by {
            assert(!dot(orig[k], x.push(false), n + 1));
        }
    }
}

/// The **complete solution space** of a GF(2) linear system `A x = b`, in symmetry-broken
/// form: one particular solution plus a basis of the kernel. Every solution is the particular
/// solution XOR a GF(2) combination of the kernel basis.
pub struct SolutionSpace {
    pub num_vars: usize,
    pub particular: Vec<bool>,
    pub kernel_basis: Vec<Vec<bool>>,
}

/// The views of the kernel basis vectors.
pub open spec fn basis_view(kb: Seq<Vec<bool>>) -> Seq<Seq<bool>> {
    Seq::new(kb.len(), |b: int| kb[b]@)
}

/// Each basis vector owns one free column: set there, clear in every other basis vector, in
/// the particular solution, and in every column past its own (the reduced echelon layout, which
/// makes the free columns exactly those that depend on the columns before them). Such a basis
/// is linearly independent.
pub open spec fn owns_free_columns(particular: Seq<bool>, kb: Seq<Seq<bool>>, free: Seq<int>, n: nat) -> bool {
    &&& free.len() == kb.len()
    &&& forall|b: int| 0 <= b < free.len() ==> 0 <= #[trigger] free[b] < n
    &&& forall|a: int, b: int| 0 <= a < b < free.len() ==> free[a] < free[b]
    &&& forall|b: int, c: int| 0 <= b < kb.len() && 0 <= c < kb.len() ==> #[trigger] kb[b][free[c]] == (b == c)
    &&& forall|b: int| 0 <= b < free.len() ==> !#[trigger] particular[free[b]]
    &&& forall|b: int, j: int| 0 <= b < kb.len() && free[b] < j < n ==> !#[trigger] kb[b][j]
}

/// The basis owns one free column per vector (see [`owns_free_columns`]).
pub open spec fn independent_basis(particular: Seq<bool>, kb: Seq<Seq<bool>>, n: nat) -> bool {
    exists|free: Seq<int>| owns_free_columns(particular, kb, free, n)
}

/// `x` is the particular solution XOR some subset of the kernel basis.
pub open spec fn in_orbit(particular: Seq<bool>, kb: Seq<Seq<bool>>, n: nat, x: Seq<bool>) -> bool {
    exists|mask: u64| mask < pow2(kb.len()) && #[trigger] combo(particular, kb, n, mask, kb.len()) == x
}

/// A mask whose low bits are the given selectors.
proof fn lemma_mask_of(sel: Seq<bool>) -> (mask: u64)
    requires
        sel.len() <= 64,
    ensures
        mask < pow2(sel.len()),
        forall|b: int| 0 <= b < sel.len() ==> #[trigger] bit(mask, b) == sel[b],
    decreases sel.len(),
{
    if sel.len() == 0 {
        lemma2_to64();
        0
    } else {
        let t = (sel.len() - 1) as u64;
        let m0 = lemma_mask_of(sel.drop_last());
        lemma_u64_shl(t);
        let m = if sel.last() { m0 | (1u64 << t) } else { m0 };
        if t < 63 {
            lemma_u64_shl((t + 1) as u64);
            assert(t < 63 && m0 < (1u64 << t) ==> (m0 | (1u64 << t)) < (1u64 << ((t + 1) as u64))) by (bit_vector);
            assert(t < 63 && m0 < (1u64 << t) ==> m0 < (1u64 << ((t + 1) as u64))) by (bit_vector);
        } else {
            lemma2_to64();
            vstd::arithmetic::power2::lemma2_to64_rest();
        }
        assert forall|b: int| 0 <= b < sel.len() implies #[trigger] bit(m, b) == sel[b] by {
            let s = b as u64;
            if b < t {
                assert(bit(m0, b) == sel.drop_last()[b]);
                assert(s < t && t < 64 ==> (((m0 | (1u64 << t)) >> s) & 1u64) == ((m0 >> s) & 1u64)) by (bit_vector);
            } else {
                assert(t < 64 && m0 < (1u64 << t) ==> (((m0 | (1u64 << t)) >> t) & 1u64) == 1u64) by (bit_vector);
                assert(t < 64 && m0 < (1u64 << t) ==> ((m0 >> t) & 1u64) == 0u64) by (bit_vector);
            }
        }
        m
    }
}

/// A combination has the length of the particular solution, and on a free column owned by basis
/// vector `c` it holds bit `c` of the mask (if `c` is among the first `b`).
proof fn lemma_combo_free(particular: Seq<bool>, kb: Seq<Seq<bool>>, free: Seq<int>, n: nat, mask: u64, b: nat)
    requires
        owns_free_columns(particular, kb, free, n),
        particular.len() == n,
        forall|i: int| 0 <= i < kb.len() ==> #[trigger] kb[i].len() == n,
        b <= kb.len(),
    ensures
        combo(particular, kb, n, mask, b).len() == n,
        forall|c: int| 0 <= c < free.len() ==> #[trigger] combo(particular, kb, n, mask, b)[free[c]] == (c < b && bit(mask, c)),
    decreases b,
{
    if b > 0 {
        lemma_combo_free(particular, kb, free, n, mask, (b - 1) as nat);
        let x = combo(particular, kb, n, mask, (b - 1) as nat);
        assert forall|c: int| 0 <= c < free.len() implies #[trigger] combo(particular, kb, n, mask, b)[free[c]]
            == (c < b && bit(mask, c)) by {
            assert(kb[b - 1][free[c]] == (b - 1 == c));
            assert(x[free[c]] == (c < b - 1 && bit(mask, c)));
        }
    }
}

/// Every combination of a solution with kernel vectors is again a solution.
pub proof fn lemma_combo_solves(rows: Seq<u64>, rhs: Seq<bool>, particular: Seq<bool>, kb: Seq<Seq<bool>>, n: nat, mask: u64, b: nat)
    requires
        is_solution(rows, rhs, num_eqs(rows, rhs), n, particular),
        forall|i: int| 0 <= i < kb.len() ==> #[trigger] in_kernel(rows, num_eqs(rows, rhs), n, kb[i]),
        b <= kb.len(),
    ensures
        is_solution(rows, rhs, num_eqs(rows, rhs), n, combo(particular, kb, n, mask, b)),
    decreases b,
{
    if b > 0 {
        let m = num_eqs(rows, rhs);
        lemma_combo_solves(rows, rhs, particular, kb, n, mask, (b - 1) as nat);
        let x = combo(particular, kb, n, mask, (b - 1) as nat);
        if bit(mask, b - 1) {
            assert(in_kernel(rows, m, n, kb[b - 1]));
            assert forall|i: int| 0 <= i < m implies dot(#[trigger] rows[i], xor_prefix(x, kb[b - 1], n), n) == rhs[i] by {
                lemma_dot_xor_vec(rows[i], x, kb[b - 1], n, n);
            }
        }
    }
}

/// Distinct masks below `2^k` give distinct combinations of an independent basis: the orbit of
/// the particular solution has exactly `2^k` members.
pub proof fn lemma_orbit_injective(particular: Seq<bool>, kb: Seq<Seq<bool>>, n: nat, m1: u64, m2: u64)
    requires
        independent_basis(particular, kb, n),
        particular.len() == n,
        forall|i: int| 0 <= i < kb.len() ==> #[trigger] kb[i].len() == n,
        m1 < pow2(kb.len()),
        m2 < pow2(kb.len()),
        kb.len() < 64,
        m1 != m2,
    ensures
        combo(particular, kb, n, m1, kb.len()) != combo(particular, kb, n, m2, kb.len()),
{
    let free = choose|free: Seq<int>| owns_free_columns(particular, kb, free, n);
    lemma_combo_free(particular, kb, free, n, m1, kb.len());
    lemma_combo_free(particular, kb, free, n, m2, kb.len());
    let c = lemma_differing_bit(m1, m2, kb.len() as u64);
    assert(combo(particular, kb, n, m1, kb.len())[free[c as int]] != combo(particular, kb, n, m2, kb.len())[free[c as int]]);
}

/// Two distinct masks below `2^k` differ in some bit below `k`.
proof fn lemma_differing_bit(m1: u64, m2: u64, k: u64) -> (c: u64)
    requires
        k < 64,
        m1 < pow2(k as nat),
        m2 < pow2(k as nat),
        m1 != m2,
    ensures
        c < k,
        bit(m1, c as int) != bit(m2, c as int),
{
    lemma_u64_shl(k);
    let x = m1 ^ m2;
    assert(m1 != m2 ==> x != 0) by (bit_vector) requires x == m1 ^ m2;
    assert(k < 64 && m1 < (1u64 << k) && m2 < (1u64 << k) && x == m1 ^ m2 ==> x & (((1u64 << k) - 1) as u64) == x)
        by (bit_vector);
    assert(k < 64 ==> (1u64 << k) >= 1) by (bit_vector);
    let c = lemma_lowest_set(x, k, ((1u64 << k) - 1) as u64);
    lemma_bit_xor(m1, m2, c as int);
    c
}

/// An invertible system has no symmetry: when the rows have full column rank, a kernel basis of
/// the kind [`solve_gf2`] returns (vectors in the kernel, each owning a free column) is empty, so
/// the solution is unique.
pub proof fn lemma_invertible_trivial_kernel(rows: Seq<u64>, rhs: Seq<bool>, n: nat, particular: Seq<bool>, kb: Seq<
    Seq<bool>,
>)
    requires
        rows.len() <= rhs.len(),
        full_column_rank(rows, n),
        forall|b: int| 0 <= b < kb.len() ==> #[trigger] in_kernel(rows, num_eqs(rows, rhs), n, kb[b]),
        independent_basis(particular, kb, n),
    ensures
        kb.len() == 0,
{
    if kb.len() > 0 {
        let free = choose|free: Seq<int>| owns_free_columns(particular, kb, free, n);
        assert(in_kernel(rows, num_eqs(rows, rhs), n, kb[0]));
        assert(in_kernel(rows, rows.len(), n, kb[0]));
        assert(is_zero_vec(kb[0]));
        assert(kb[0][free[0]]);
    }
}

/// Solve a GF(2) system `A x = b` (each row a coefficient bit-vector in the low `n` bits, `rhs`
/// the right-hand sides) for its entire solution space by Gaussian elimination to reduced row
/// echelon form. Returns the particular solution and kernel basis, or `None` exactly when the
/// system is inconsistent.
pub fn solve_gf2(n: usize, rows: &[u64], rhs: &[bool]) -> (res: Option<SolutionSpace>)
    requires
        n <= 64,
        n == 64 ==> num_eqs(rows@, rhs@) == 0,
    ensures
        res is None <==> forall|x: Seq<bool>| !#[trigger] is_solution(rows@, rhs@, num_eqs(rows@, rhs@), n as nat, x),
        res matches Some(sp) ==> sp.num_vars == n,
        res matches Some(sp) ==> is_solution(rows@, rhs@, num_eqs(rows@, rhs@), n as nat, sp.particular@),
        res matches Some(sp) ==> forall|b: int| 0 <= b < sp.kernel_basis@.len()
            ==> #[trigger] in_kernel(rows@, num_eqs(rows@, rhs@), n as nat, sp.kernel_basis@[b]@),
        res matches Some(sp) ==> independent_basis(sp.particular@, basis_view(sp.kernel_basis@), n as nat),
        res matches Some(sp) ==> forall|x: Seq<bool>| #[trigger] is_solution(rows@, rhs@, num_eqs(rows@, rhs@), n as nat, x)
            ==> in_orbit(sp.particular@, basis_view(sp.kernel_basis@), n as nat, x),
{
    let ghost m = num_eqs(rows@, rhs@);
    let coeff_mask: u64 = if n == 64 {
        u64::MAX
    } else {
        assert((n as u64) < 64 ==> (1u64 << (n as u64)) >= 1) by (bit_vector);
        (1u64 << (n as u64)) - 1
    };
    let mut aug: Vec<u64> = Vec::new();
    let mut i: usize = 0;
    while i < rows.len() && i < rhs.len()
        invariant
            i <= rows@.len(),
            i <= rhs@.len(),
            i <= m,
            m == num_eqs(rows@, rhs@),
            n <= 64,
            n == 64 ==> m == 0,
            n < 64 ==> coeff_mask == (1u64 << (n as u64)) - 1,
            aug@.len() == i,
            forall|k: int, j: int| 0 <= k < i && 0 <= j < n ==> #[trigger] bit(aug@[k], j) == bit(rows@[k], j),
            forall|k: int| 0 <= k < i ==> bit(#[trigger] aug@[k], n as int) == rhs@[k],
        decreases rows@.len() - i,
    {
        let hi: u64 = if rhs[i] { 1u64 << (n as u64) } else { 0u64 };
        let a = (rows[i] & coeff_mask) | hi;
        proof {
            lemma_aug_bits(rows@[i as int], rhs@[i as int], n as u64, coeff_mask, a);
        }
        aug.push(a);
        i += 1;
    }
    let ghost orig = aug@;
    assert(augmented(orig, rows@, rhs@, n as nat));
    let piv = eliminate(&mut aug, n);
    let rank = piv.len();
    // Inconsistent: a fully reduced row with no coefficients but a 1 on the right (0 = 1).
    let mut r: usize = 0;
    while r < aug.len()
        invariant
            aug@.len() == m,
            n <= 64,
            n == 64 ==> m == 0,
            n < 64 ==> coeff_mask == (1u64 << (n as u64)) - 1,
            forall|q: int| 0 <= q < r ==> !(#[trigger] aug@[q] & coeff_mask == 0 && bit(aug@[q], n as int)),
            same_kernels(aug@, orig),
            m == num_eqs(rows@, rhs@),
            augmented(orig, rows@, rhs@, n as nat),
        decreases aug@.len() - r,
    {
        if aug[r] & coeff_mask == 0 && (aug[r] >> (n as u64)) & 1u64 == 1u64 {
            proof {
                lemma_mask_zero(aug@[r as int], n as u64, coeff_mask);
                assert forall|x: Seq<bool>| !#[trigger] is_solution(rows@, rhs@, m, n as nat, x) by {
                    if x.len() == n {
                        lemma_aug_solution(orig, rows@, rhs@, n as nat, x);
                        let y = x.push(true);
                        lemma_dot_rhs_only(aug@[r as int], y, n as nat);
                        assert(!all_zero(aug@, y, (n + 1) as nat));
                        assert(all_zero(aug@, y, (n + 1) as nat) == all_zero(orig, y, (n + 1) as nat));
                    }
                }
            }
            return None;
        }
        r += 1;
    }
    let mut is_pivot: Vec<bool> = vec![false; n];
    let mut k: usize = 0;
    while k < rank
        invariant
            rank == piv@.len(),
            echelon(aug@, piv@, n as nat),
            is_pivot@.len() == n,
            forall|j: int| 0 <= j < n ==> #[trigger] is_pivot@[j] == exists|q: int| 0 <= q < k && piv@[q] == j,
            k <= rank,
        decreases rank - k,
    {
        is_pivot.set(piv[k], true);
        proof {
            assert forall|j: int| 0 <= j < n implies #[trigger] is_pivot@[j] == exists|q: int| 0 <= q < k + 1 && piv@[q] == j by {
                if j == piv@[k as int] {
                    assert(piv@[k as int] == j);
                }
            }
        }
        k += 1;
    }
    // Particular solution: free variables 0, each pivot variable its row's right-hand side.
    let mut particular: Vec<bool> = vec![false; n];
    let mut k: usize = 0;
    while k < rank
        invariant
            rank == piv@.len(),
            echelon(aug@, piv@, n as nat),
            n <= 64,
            n == 64 ==> aug@.len() == 0,
            particular@.len() == n,
            forall|j: int| 0 <= j < n ==> #[trigger] particular@[j]
                == exists|q: int| 0 <= q < k && piv@[q] == j && #[trigger] bit(aug@[q], n as int),
            k <= rank,
        decreases rank - k,
    {
        let v = (aug[k] >> (n as u64)) & 1u64 == 1u64;
        if v {
            particular.set(piv[k], true);
        }
        proof {
            assert forall|j: int| 0 <= j < n implies #[trigger] particular@[j]
                == exists|q: int| 0 <= q < k + 1 && piv@[q] == j && #[trigger] bit(aug@[q], n as int) by {
                if j == piv@[k as int] && v {
                    assert(piv@[k as int] == j && bit(aug@[k as int], n as int));
                }
                if exists|q: int| 0 <= q < k + 1 && piv@[q] == j && #[trigger] bit(aug@[q], n as int) {
                    let q = choose|q: int| 0 <= q < k + 1 && piv@[q] == j && #[trigger] bit(aug@[q], n as int);
                    if q < k {
                        assert(piv@[q] == j && bit(aug@[q], n as int));
                    }
                }
            }
        }
        k += 1;
    }
    proof {
        // Each pivot variable equals its row's right-hand side.
        assert forall|q: int| 0 <= q < rank implies #[trigger] particular@[piv@[q] as int] == bit(aug@[q], n as int) by {
            if particular@[piv@[q] as int] {
                let q2 = choose|q2: int| 0 <= q2 < rank && piv@[q2] == piv@[q] && #[trigger] bit(aug@[q2], n as int);
                if q2 < q {
                    assert(piv@[q2] < piv@[q]);
                } else if q2 > q {
                    assert(piv@[q] < piv@[q2]);
                }
            } else {
                if bit(aug@[q], n as int) {
                    assert(piv@[q] == piv@[q] && bit(aug@[q], n as int));
                }
            }
        }
        // The particular solution solves the reduced, hence the original, system.
        let y = particular@.push(true);
        assert forall|q: int| 0 <= q < aug@.len() implies !dot(#[trigger] aug@[q], y, (n + 1) as nat) by {
            if q < rank {
                assert forall|j: int| 0 <= j < n + 1 && j != n && j != piv@[q] implies !(bit(aug@[q], j) && y[j]) by {
                    if y[j] {
                        let q2 = choose|q2: int| 0 <= q2 < rank && piv@[q2] == j && #[trigger] bit(aug@[q2], n as int);
                        assert(!bit(aug@[q], piv@[q2] as int));
                    }
                }
                lemma_dot_two(aug@[q], y, (n + 1) as nat, piv@[q] as int, n as int);
            } else {
                lemma_mask_zero(aug@[q], n as u64, coeff_mask);
                assert(!(aug@[q] & coeff_mask == 0 && bit(aug@[q], n as int)));
                lemma_dot_rhs_only(aug@[q], y, n as nat);
            }
        }
        assert(all_zero(aug@, y, (n + 1) as nat) == all_zero(orig, y, (n + 1) as nat));
        lemma_aug_solution(orig, rows@, rhs@, n as nat, particular@);
        assert(is_solution(rows@, rhs@, m, n as nat, particular@));
    }
    // Kernel basis: one vector per free column f.
    let mut kernel_basis: Vec<Vec<bool>> = Vec::new();
    let ghost mut free: Seq<int> = Seq::empty();
    let mut f: usize = 0;
    while f < n
        invariant
            f <= n,
            n <= 64,
            rank == piv@.len(),
            echelon(aug@, piv@, n as nat),
            is_pivot@.len() == n,
            forall|j: int| 0 <= j < n ==> #[trigger] is_pivot@[j] == exists|q: int| 0 <= q < rank && piv@[q] == j,
            free.len() == kernel_basis@.len(),
            free.len() <= f,
            forall|b: int| 0 <= b < free.len() ==> 0 <= #[trigger] free[b] < f,
            forall|b: int| 0 <= b < free.len() ==> !is_pivot@[#[trigger] free[b]],
            forall|j: int| 0 <= j < f ==> is_pivot@[j] || exists|b: int| 0 <= b < free.len() && #[trigger] free[b] == j,
            forall|a: int, b: int| 0 <= a < b < free.len() ==> free[a] < free[b],
            forall|b: int| 0 <= b < free.len() ==> #[trigger] kernel_basis@[b]@ == kernel_vec(aug@, piv@, n as nat, free[b]),
            same_kernels(aug@, orig),
            m == num_eqs(rows@, rhs@),
            augmented(orig, rows@, rhs@, n as nat),
            is_solution(rows@, rhs@, m, n as nat, particular@),
            particular@.len() == n,
            forall|j: int| 0 <= j < n ==> #[trigger] particular@[j]
                == exists|q: int| 0 <= q < rank && piv@[q] == j && #[trigger] bit(aug@[q], n as int),
        decreases n - f,
    {
        if !is_pivot[f] {
            let mut kv: Vec<bool> = vec![false; n];
            kv.set(f, true);
            let mut q: usize = 0;
            while q < rank
                invariant
                    f < n,
                    n <= 64,
                    q <= rank,
                    rank == piv@.len(),
                    echelon(aug@, piv@, n as nat),
                    !is_pivot@[f as int],
                    is_pivot@.len() == n,
                    forall|j: int| 0 <= j < n ==> #[trigger] is_pivot@[j] == exists|q2: int| 0 <= q2 < rank && piv@[q2] == j,
                    kv@.len() == n,
                    forall|j: int| 0 <= j < n ==> #[trigger] kv@[j]
                        == (j == f || exists|q2: int| 0 <= q2 < q && piv@[q2] == j && #[trigger] bit(aug@[q2], f as int)),
                decreases rank - q,
            {
                let v = (aug[q] >> (f as u64)) & 1u64 == 1u64;
                if v {
                    kv.set(piv[q], true);
                }
                proof {
                    assert(piv@[q as int] != f) by {
                        if piv@[q as int] == f {
                            assert(is_pivot@[f as int]);
                        }
                    }
                    assert forall|j: int| 0 <= j < n implies #[trigger] kv@[j]
                        == (j == f || exists|q2: int| 0 <= q2 < q + 1 && piv@[q2] == j && #[trigger] bit(aug@[q2], f as int)) by {
                        if j == piv@[q as int] && v {
                            assert(piv@[q as int] == j && bit(aug@[q as int], f as int));
                        }
                        if exists|q2: int| 0 <= q2 < q + 1 && piv@[q2] == j && #[trigger] bit(aug@[q2], f as int) {
                            let q2 = choose|q2: int| 0 <= q2 < q + 1 && piv@[q2] == j && #[trigger] bit(aug@[q2], f as int);
                            if q2 < q {
                                assert(piv@[q2] == j && bit(aug@[q2], f as int));
                            }
                        }
                    }
                }
                q += 1;
            }
            proof {
                assert(kv@ =~= kernel_vec(aug@, piv@, n as nat, f as int));
                let old_free = free;
                free = free.push(f as int);
                assert forall|j: int| 0 <= j < f + 1 implies is_pivot@[j] || exists|b: int| 0 <= b < free.len() && #[trigger] free[b] == j by {
                    if j == f {
                        assert(free[free.len() - 1] == j);
                    } else if !is_pivot@[j] {
                        let b = choose|b: int| 0 <= b < old_free.len() && #[trigger] old_free[b] == j;
                        assert(free[b] == j);
                    }
                }
            }
            kernel_basis.push(kv);
        }
        f += 1;
    }
    proof {
        let kbv = basis_view(kernel_basis@);
        assert forall|b: int| 0 <= b < kernel_basis@.len()
            implies #[trigger] in_kernel(rows@, m, n as nat, kernel_basis@[b]@) by {
            assert forall|k2: int| 0 <= k2 < piv@.len() implies #[trigger] piv@[k2] != free[b] by {
                if piv@[k2] == free[b] {
                    assert(is_pivot@[free[b]]);
                }
            }
            let kv = kernel_basis@[b]@;
            lemma_kernel_vec(aug@, piv@, n as nat, free[b]);
            let y = kv.push(false);
            assert forall|q: int| 0 <= q < aug@.len() implies !dot(#[trigger] aug@[q], y, (n + 1) as nat) by {
                lemma_dot_extend(aug@[q], kv, n as nat, false);
            }
            assert(all_zero(aug@, y, (n + 1) as nat) == all_zero(orig, y, (n + 1) as nat));
            lemma_aug_kernel(orig, rows@, rhs@, n as nat, kv);
        }
        assert forall|b: int, c: int| 0 <= b < kbv.len() && 0 <= c < kbv.len() implies #[trigger] kbv[b][free[c]] == (b == c) by {
            assert forall|k2: int| 0 <= k2 < piv@.len() implies #[trigger] piv@[k2] != free[b] by {
                if piv@[k2] == free[b] {
                    assert(is_pivot@[free[b]]);
                }
            }
            lemma_kernel_vec(aug@, piv@, n as nat, free[b]);
            assert forall|k2: int| 0 <= k2 < piv@.len() implies #[trigger] piv@[k2] != free[c] by {
                if piv@[k2] == free[c] {
                    assert(is_pivot@[free[c]]);
                }
            }
            if b != c {
                assert(free[b] != free[c]) by {
                    if b < c {
                        assert(free[b] < free[c]);
                    } else {
                        assert(free[c] < free[b]);
                    }
                }
            }
        }
        assert forall|b: int| 0 <= b < free.len() implies !#[trigger] particular@[free[b]] by {
            if particular@[free[b]] {
                let q2 = choose|q2: int| 0 <= q2 < rank && piv@[q2] == free[b] && #[trigger] bit(aug@[q2], n as int);
                assert(is_pivot@[free[b]]);
            }
        }
        assert(owns_free_columns(particular@, kbv, free, n as nat));
    }
    let sp = SolutionSpace { num_vars: n, particular, kernel_basis };
    proof {
        assert(owns_free_columns(sp.particular@, basis_view(sp.kernel_basis@), free, n as nat));
        assert(is_solution(rows@, rhs@, m, n as nat, sp.particular@));
        assert(forall|b: int| 0 <= b < sp.kernel_basis@.len()
                ==> #[trigger] in_kernel(rows@, m, n as nat, sp.kernel_basis@[b]@));
        assert(independent_basis(sp.particular@, basis_view(sp.kernel_basis@), n as nat));
        let kbv = basis_view(sp.kernel_basis@);
        assert forall|b: int| 0 <= b < kbv.len() implies #[trigger] kbv[b].len() == n by {
            assert(in_kernel(rows@, m, n as nat, sp.kernel_basis@[b]@));
        }
        assert forall|x: Seq<bool>| #[trigger] is_solution(rows@, rhs@, m, n as nat, x)
            implies in_orbit(sp.particular@, kbv, n as nat, x) by {
            let sel = Seq::new(free.len(), |c: int| x[free[c]]);
            let mask = lemma_mask_of(sel);
            let z = combo(sp.particular@, kbv, n as nat, mask, kbv.len());
            lemma_combo_solves(rows@, rhs@, sp.particular@, kbv, n as nat, mask, kbv.len());
            lemma_combo_free(sp.particular@, kbv, free, n as nat, mask, kbv.len());
            // d = x XOR z is in the kernel and vanishes on every free column, hence is zero.
            let d = xor_prefix(x, z, n as nat);
            assert forall|i: int| 0 <= i < m implies !dot(#[trigger] rows@[i], d, n as nat) by {
                lemma_dot_xor_vec(rows@[i], x, z, n as nat, n as nat);
            }
            assert(in_kernel(rows@, m, n as nat, d));
            lemma_aug_kernel(orig, rows@, rhs@, n as nat, d);
            assert(all_zero(aug@, d.push(false), (n + 1) as nat) == all_zero(orig, d.push(false), (n + 1) as nat));
            assert forall|j: int| 0 <= j < n implies !#[trigger] d[j] by {
                if is_pivot@[j] {
                    let q = choose|q: int| 0 <= q < rank && piv@[q] == j;
                    assert(!dot(aug@[q], d.push(false), (n + 1) as nat));
                    lemma_dot_extend(aug@[q], d, n as nat, false);
                    assert forall|c: int| 0 <= c < n && c != j implies !(bit(aug@[q], c) && d[c]) by {
                        if !is_pivot@[c] {
                            let b = choose|b: int| 0 <= b < free.len() && #[trigger] free[b] == c;
                            assert(z[free[b]] == bit(mask, b));
                            assert(bit(mask, b) == sel[b]);
                        } else {
                            let q2 = choose|q2: int| 0 <= q2 < rank && piv@[q2] == c;
                            assert(!bit(aug@[q], piv@[q2] as int));
                        }
                    }
                    lemma_dot_one(aug@[q], d, n as nat, j);
                } else {
                    let b = choose|b: int| 0 <= b < free.len() && #[trigger] free[b] == j;
                    assert(z[free[b]] == bit(mask, b));
                    assert(bit(mask, b) == sel[b]);
                }
            }
            assert forall|j: int| 0 <= j < n implies x[j] == z[j] by {
                assert(!d[j]);
            }
            assert(x =~= z);
        }
        assert(!forall|x: Seq<bool>| !#[trigger] is_solution(rows@, rhs@, m, n as nat, x));
    }
    Some(sp)
}

/// `1 << s` is `2^s` in `u128`.
proof fn lemma_u128_shl(s: u32)
    requires
        s < 128,
    ensures
        (1u128 << s) == pow2(s as nat),
    decreases s,
{
    if s == 0 {
        assert((1u128 << 0u32) == 1u128) by (bit_vector);
        lemma2_to64();
    } else {
        lemma_u128_shl((s - 1) as u32);
        let t = (s - 1) as u32;
        assert(0 < s < 128 && t == s - 1 ==> (1u128 << s) == (1u128 << t) * 2) by (bit_vector);
        lemma_pow2_unfold(s as nat);
    }
}

/// `1 << s` is `2^s` in `u64`.
proof fn lemma_u64_shl(s: u64)
    requires
        s < 64,
    ensures
        (1u64 << s) == pow2(s as nat),
{
    vstd::bits::lemma_u64_pow2_no_overflow(s as nat);
    vstd::bits::lemma_u64_shl_is_mul(1u64, s);
}

impl SolutionSpace {
    /// The number of solutions: `2^(dim kernel)` (rank–nullity).
    pub fn count(&self) -> (r: u128)
        requires
            self.kernel_basis@.len() < 128,
        ensures
            r == pow2(self.kernel_basis@.len()),
    {
        let k = self.kernel_basis.len() as u32;
        proof {
            lemma_u128_shl(k);
        }
        1u128 << k
    }

    /// Generate every solution by XOR-ing the particular solution with each subset of the
    /// kernel basis: entry `mask` holds the particular solution XOR the basis vectors whose bit
    /// is set in `mask`.
    pub fn enumerate(&self) -> (r: Vec<Vec<bool>>)
        requires
            self.kernel_basis@.len() < 64,
            self.particular@.len() >= self.num_vars,
            forall|b: int| 0 <= b < self.kernel_basis@.len() ==> #[trigger] self.kernel_basis@[b]@.len() >= self.num_vars,
        ensures
            r@.len() == pow2(self.kernel_basis@.len()),
            forall|mask: int| 0 <= mask < r@.len() ==> #[trigger] r@[mask]@
                == combo(self.particular@, basis_view(self.kernel_basis@), self.num_vars as nat, mask as u64,
                    self.kernel_basis@.len()),
    {
        let k = self.kernel_basis.len();
        let total: u64 = 1u64 << (k as u64);
        proof {
            lemma_u64_shl(k as u64);
        }
        let nv = self.num_vars;
        let ghost kb = basis_view(self.kernel_basis@);
        let mut out: Vec<Vec<bool>> = Vec::new();
        let mut mask: u64 = 0;
        while mask < total
            invariant
                total == pow2(k as nat),
                k == self.kernel_basis@.len(),
                kb == basis_view(self.kernel_basis@),
                nv == self.num_vars,
                self.particular@.len() >= nv,
                forall|b: int| 0 <= b < k ==> #[trigger] self.kernel_basis@[b]@.len() >= nv,
                out@.len() == mask,
                mask <= total,
                k < 64,
                forall|q: int| 0 <= q < mask ==> #[trigger] out@[q]@ == combo(self.particular@, kb, nv as nat, q as u64, k as nat),
            decreases total - mask,
        {
            let mut x = self.particular.clone();
            let mut b: usize = 0;
            while b < k
                invariant
                    b <= k,
                    k == self.kernel_basis@.len(),
                    k < 64,
                    kb == basis_view(self.kernel_basis@),
                    self.particular@.len() >= nv,
                    forall|b2: int| 0 <= b2 < k ==> #[trigger] self.kernel_basis@[b2]@.len() >= nv,
                    x@ == combo(self.particular@, kb, nv as nat, mask, b as nat),
                    x@.len() == self.particular@.len(),
                decreases k - b,
            {
                if (mask >> (b as u64)) & 1u64 == 1u64 {
                    let ghost before = x@;
                    let mut v: usize = 0;
                    while v < nv
                        invariant
                            v <= nv,
                            b < k,
                            k == self.kernel_basis@.len(),
                            x@.len() == before.len(),
                            before.len() == self.particular@.len(),
                            before.len() >= nv,
                            self.kernel_basis@[b as int]@.len() >= nv,
                            forall|j: int| 0 <= j < before.len() ==> #[trigger] x@[j]
                                == if j < v { before[j] != self.kernel_basis@[b as int]@[j] } else { before[j] },
                        decreases nv - v,
                    {
                        let nb = x[v] != self.kernel_basis[b][v];
                        x.set(v, nb);
                        v += 1;
                    }
                    proof {
                        assert(x@ =~= xor_prefix(before, kb[b as int], nv as nat));
                    }
                }
                b += 1;
            }
            out.push(x);
            mask += 1;
        }
        out
    }
}

/// The XOR of the particular solution with the basis vectors (among the first `b`) whose bit is
/// set in `mask`, over the first `nv` coordinates.
pub open spec fn combo(particular: Seq<bool>, kb: Seq<Seq<bool>>, nv: nat, mask: u64, b: nat) -> Seq<bool>
    decreases b,
{
    if b == 0 {
        particular
    } else {
        let x = combo(particular, kb, nv, mask, (b - 1) as nat);
        if bit(mask, b - 1) {
            xor_prefix(x, kb[b - 1], nv)
        } else {
            x
        }
    }
}

/// The product `Π_{i<k} (2^n − 2^i)`.
pub open spec fn gl_product(n: nat, k: nat) -> nat
    decreases k,
{
    if k == 0 {
        1
    } else {
        gl_product(n, (k - 1) as nat) * ((pow2(n) - pow2((k - 1) as nat)) as nat)
    }
}

/// The partial products grow: each factor `2^n − 2^i` with `i < n` is at least 1.
proof fn lemma_gl_product_grows(n: nat, k: nat, l: nat)
    requires
        k <= l <= n,
    ensures
        1 <= gl_product(n, k) <= gl_product(n, l),
    decreases l,
{
    if l > 0 {
        if k < l {
            lemma_gl_product_grows(n, k, (l - 1) as nat);
        } else {
            lemma_gl_product_grows(n, (l - 1) as nat, (l - 1) as nat);
        }
        vstd::arithmetic::power2::lemma_pow2_strictly_increases((l - 1) as nat, n);
        let f = (pow2(n) - pow2((l - 1) as nat)) as nat;
        let g = gl_product(n, (l - 1) as nat);
        assert(g <= g * f) by (nonlinear_arith) requires f >= 1, g >= 1;
    }
}

/// `|GL(n,2)|` via the ordered-basis factorization `Π_{i=0}^{n-1}(2^n − 2^i)`: each factor counts
/// the vectors outside the span of the basis chosen so far.
pub fn gl_order(n: u32) -> (r: u128)
    requires
        n < 128,
        gl_product(n as nat, n as nat) <= u128::MAX,
    ensures
        r == gl_product(n as nat, n as nat),
{
    let full = 1u128 << n;
    proof {
        lemma_u128_shl(n);
    }
    let mut acc: u128 = 1;
    let mut i: u32 = 0;
    while i < n
        invariant
            i <= n,
            n < 128,
            full == pow2(n as nat),
            acc == gl_product(n as nat, i as nat),
            gl_product(n as nat, n as nat) <= u128::MAX,
        decreases n - i,
    {
        proof {
            lemma_u128_shl(i);
            vstd::arithmetic::power2::lemma_pow2_strictly_increases(i as nat, n as nat);
            lemma_gl_product_grows(n as nat, (i + 1) as nat, n as nat);
        }
        let factor = full - (1u128 << i);
        acc = acc * factor;
        i += 1;
    }
    acc
}

/// The `n` x `n` matrix packed in the low `n * n` bits of `bits`: row `r` is bits `r*n ..`.
pub open spec fn unpack_matrix(bits: u64, n: nat) -> Seq<u64> {
    Seq::new(n, |r: int| ((bits >> ((r * n) as u64)) & ((1u64 << (n as u64)) - 1) as u64) as u64)
}

/// The number of `bits` below `limit` whose unpacked matrix has full rank.
pub open spec fn count_full_rank(n: nat, limit: nat) -> nat
    decreases limit,
{
    if limit == 0 {
        0
    } else {
        count_full_rank(n, (limit - 1) as nat) + if full_column_rank(unpack_matrix((limit - 1) as u64, n), n) {
            1nat
        } else {
            0nat
        }
    }
}

/// Brute-force count of invertible n x n GF(2) matrices, over all `2^(n²)` of them.
pub fn count_invertible_gf2_bruteforce(n: u32) -> (r: u128)
    requires
        n * n < 64,
    ensures
        r == count_full_rank(n as nat, pow2((n * n) as nat)),
{
    let cells = n * n;
    assert(n < 8) by (nonlinear_arith) requires n * n < 64;
    assert((n as u64) < 64 ==> (1u64 << (n as u64)) >= 1) by (bit_vector);
    let mask: u64 = (1u64 << (n as u64)) - 1;
    let total: u64 = 1u64 << (cells as u64);
    proof {
        lemma_u64_shl(cells as u64);
    }
    let mut count: u128 = 0;
    let mut bits: u64 = 0;
    while bits < total
        invariant
            n < 8,
            cells == n * n,
            cells < 64,
            total == pow2(cells as nat),
            mask == ((1u64 << (n as u64)) - 1) as u64,
            bits <= total,
            count == count_full_rank(n as nat, bits as nat),
            count <= bits,
        decreases total - bits,
    {
        let mut rows: Vec<u64> = Vec::new();
        let mut r: u32 = 0;
        while r < n
            invariant
                r <= n,
                n < 8,
                cells == n * n,
                cells < 64,
                mask == ((1u64 << (n as u64)) - 1) as u64,
                rows@.len() == r,
                forall|q: int| 0 <= q < r ==> #[trigger] rows@[q] == unpack_matrix(bits, n as nat)[q],
            decreases n - r,
        {
            assert(r * n < n * n) by (nonlinear_arith) requires r < n;
            let shift = r * n;
            rows.push((bits >> (shift as u64)) & mask);
            r += 1;
        }
        assert(rows@ =~= unpack_matrix(bits, n as nat));
        if is_invertible_gf2(n, rows.as_slice()) {
            count += 1;
        }
        bits += 1;
    }
    count
}

} // verus!
