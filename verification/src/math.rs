//! Powers of two, bit masks, and the triangular numbers that drive probing.
use vstd::arithmetic::div_mod::*;
use vstd::arithmetic::mul::*;
use vstd::arithmetic::power::*;
use vstd::arithmetic::power2::*;
use vstd::bits::*;
use vstd::prelude::*;
use vstd::set_lib::*;

verus! {

/// The `k`-th triangular number, `1 + 2 + ... + k`.
pub open spec fn tri(k: nat) -> nat
    decreases k,
{
    if k == 0 {
        0
    } else {
        tri((k - 1) as nat) + k
    }
}

/// `x` rounded up to a multiple of `align`.
pub open spec fn round_up(x: int, align: int) -> int {
    ((x + align - 1) / align) * align
}

/// Masking with one less than a power of two is the remainder by that power.
pub proof fn lemma_mask_is_mod(x: usize, mask: usize)
    requires
        mask < usize::MAX,
        is_pow2(mask + 1),
    ensures
        (x & mask) as int == x as int % (mask + 1),
{
    is_pow2_equiv(mask + 1);
    let i = choose|i: nat| pow(2, i) == mask + 1;
    lemma_pow2(i);
    if i >= usize::BITS {
        lemma_pow_increases(2, usize::BITS as nat, i);
        lemma_pow2(usize::BITS as nat);
        lemma2_to64();
        lemma2_to64_rest();
    }
    lemma_usize_low_bits_mask_is_mod(x, i);
}

pub proof fn lemma_pow2_positive(n: int)
    requires
        is_pow2(n),
    ensures
        n >= 1,
{
    reveal(is_pow2);
}

/// Twice a power of two is a power of two.
pub proof fn lemma_pow2_double(n: int)
    requires
        is_pow2(n),
    ensures
        is_pow2(2 * n),
{
    reveal(is_pow2);
}

/// Half of a power of two above one is a power of two.
pub proof fn lemma_pow2_half(n: int)
    requires
        is_pow2(n),
        n > 1,
    ensures
        n % 2 == 0,
        is_pow2(n / 2),
        n == 2 * (n / 2),
{
    reveal(is_pow2);
}

/// A smaller power of two divides a larger one, and the quotient is a power of two.
pub proof fn lemma_pow2_divides(a: int, b: int)
    requires
        is_pow2(a),
        is_pow2(b),
        a <= b,
    ensures
        b % a == 0,
        is_pow2(b / a),
        b == a * (b / a),
    decreases a,
{
    lemma_pow2_positive(a);
    lemma_pow2_positive(b);
    if a == 1 {
    } else {
        lemma_pow2_half(a);
        lemma_pow2_half(b);
        lemma_pow2_divides(a / 2, b / 2);
        let q = (b / 2) / (a / 2);
        assert(b == a * q) by (nonlinear_arith)
            requires
                b == 2 * (b / 2),
                a == 2 * (a / 2),
                b / 2 == (a / 2) * q,
        ;
        lemma_fundamental_div_mod_converse(b, a, q, 0);
    }
}

/// Two distinct powers of two differ by at least a factor of two.
pub proof fn lemma_pow2_gap(a: int, b: int)
    requires
        is_pow2(a),
        is_pow2(b),
        a < b,
    ensures
        2 * a <= b,
{
    lemma_pow2_divides(a, b);
    lemma_pow2_positive(a);
    let q = b / a;
    assert(q >= 2) by (nonlinear_arith)
        requires
            b == a * q,
            a < b,
            a >= 1,
    ;
    assert(2 * a <= a * q) by (nonlinear_arith)
        requires
            q >= 2,
            a >= 1,
    ;
}

/// The closed form of the triangular numbers.
pub proof fn lemma_tri_closed(k: nat)
    ensures
        2 * tri(k) == k * (k + 1),
    decreases k,
{
    if k > 0 {
        let p = (k - 1) as nat;
        lemma_tri_closed(p);
        assert(p * (p + 1) + 2 * k == k * (k + 1)) by (nonlinear_arith)
            requires
                k == p + 1,
        ;
    } else {
        assert(k * (k + 1) == 0) by (nonlinear_arith)
            requires
                k == 0,
        ;
    }
}

/// An odd factor can be cancelled from a multiple of a power of two.
pub proof fn lemma_odd_cancel(o: int, e: int, p: int)
    requires
        is_pow2(p),
        o % 2 == 1,
        (o * e) % p == 0,
    ensures
        e % p == 0,
    decreases p,
{
    lemma_pow2_positive(p);
    if p > 1 {
        lemma_pow2_half(p);
        let h = p / 2;
        let q = (o * e) / p;
        lemma_fundamental_div_mod(o * e, p);
        let oh = o / 2;
        assert(o == 2 * oh + 1);
        assert(e == 2 * (h * q - oh * e)) by (nonlinear_arith)
            requires
                o * e == p * q,
                p == 2 * h,
                o == 2 * oh + 1,
        ;
        let e2 = h * q - oh * e;
        assert(e2 == e / 2);
        assert(o * e2 == h * q) by (nonlinear_arith)
            requires
                o * e == p * q,
                p == 2 * h,
                e == 2 * e2,
        ;
        lemma_mod_multiples_basic(q, h);
        assert(q * h == h * q) by (nonlinear_arith);
        lemma_odd_cancel(o, e2, h);
        let r = e2 / h;
        lemma_fundamental_div_mod(e2, h);
        assert(e == p * r) by (nonlinear_arith)
            requires
                e == 2 * e2,
                e2 == h * r,
                p == 2 * h,
        ;
        lemma_fundamental_div_mod_converse(e, p, r, 0);
    }
}

/// The first `m` triangular numbers are pairwise distinct modulo `m`.
pub proof fn lemma_tri_distinct(i: nat, j: nat, m: int)
    requires
        is_pow2(m),
        i < j < m,
    ensures
        tri(i) as int % m != tri(j) as int % m,
{
    if tri(i) as int % m == tri(j) as int % m {
        lemma_pow2_double(m);
        lemma_tri_closed(i);
        lemma_tri_closed(j);
        let qi = tri(i) as int / m;
        let qj = tri(j) as int / m;
        lemma_fundamental_div_mod(tri(i) as int, m);
        lemma_fundamental_div_mod(tri(j) as int, m);
        let a: int = j - i;
        let b: int = (j + i + 1) as int;
        let q = qj - qi;
        assert(a * b == 2 * m * q) by (nonlinear_arith)
            requires
                2 * tri(i) == i * (i + 1),
                2 * tri(j) == j * (j + 1),
                tri(j) - tri(i) == m * qj - m * qi,
                a == j - i,
                b == j + i + 1,
                q == qj - qi,
        ;
        assert(2 * m * q == q * (2 * m)) by (nonlinear_arith);
        assert(a * b == b * a) by (nonlinear_arith);
        lemma_mod_multiples_basic(q, 2 * m);
        if a % 2 == 1 {
            lemma_odd_cancel(a, b, 2 * m);
            lemma_small_mod(b as nat, (2 * m) as nat);
        } else {
            assert(b % 2 == 1);
            lemma_odd_cancel(b, a, 2 * m);
            lemma_small_mod(a as nat, (2 * m) as nat);
        }
    }
}

/// Every residue modulo `m` is the residue of one of the first `m` triangular numbers.
pub proof fn lemma_tri_covers(r: int, m: int) -> (k: nat)
    requires
        is_pow2(m),
        0 <= r < m,
    ensures
        k < m,
        tri(k) as int % m == r,
{
    let s = Seq::new(m as nat, |k: int| tri(k as nat) as int % m);
    assert(s.no_duplicates()) by {
        assert forall|i: int, j: int| 0 <= i < m && 0 <= j < m && i != j implies s[i] != s[j] by {
            if i < j {
                lemma_tri_distinct(i as nat, j as nat, m);
            } else {
                lemma_tri_distinct(j as nat, i as nat, m);
            }
        }
    }
    s.unique_seq_to_set();
    let range = set_int_range(0, m);
    lemma_int_range(0, m);
    assert forall|x: int| s.to_set().contains(x) implies range.contains(x) by {
        let i = choose|i: int| 0 <= i < s.len() && s[i] == x;
        lemma_mod_bound(tri(i as nat) as int, m);
    }
    vstd::seq_lib::seq_to_set_is_finite(s);
    lemma_subset_equality(s.to_set(), range);
    assert(s.to_set().contains(r));
    let i = choose|i: int| 0 <= i < s.len() && s[i] == r;
    i as nat
}

/// The range of `usize` is a multiple of every power of two within it.
proof fn lemma_usize_range(n: int) -> (q: int)
    requires
        is_pow2(n),
        n <= usize::MAX,
    ensures
        usize::MAX + 1 == n * q,
{
    lemma2_to64();
    lemma2_to64_rest();
    let top = usize::MAX + 1;
    is_pow2_equiv(top);
    lemma_pow2(usize::BITS as nat);
    assert(pow(2, usize::BITS as nat) == top);
    lemma_pow2_divides(n, top);
    top / n
}

/// Masking a wrapped sum is the remainder of the sum.
pub proof fn lemma_masked_add(a: usize, b: usize, mask: usize)
    requires
        mask < usize::MAX,
        is_pow2(mask + 1),
    ensures
        (vstd::wrapping::usize_specs::wrapping_add(a, b) & mask) as int == (a + b) % (mask + 1),
{
    let n = mask + 1;
    let w = vstd::wrapping::usize_specs::wrapping_add(a, b);
    lemma_mask_is_mod(w, mask);
    let q = lemma_usize_range(n);
    if a + b > usize::MAX {
        lemma_mod_multiples_vanish(q, w as int, n);
    }
}

/// Masking a wrapped difference is the remainder of the difference.
pub proof fn lemma_masked_sub(a: usize, b: usize, mask: usize)
    requires
        mask < usize::MAX,
        is_pow2(mask + 1),
    ensures
        (vstd::wrapping::usize_specs::wrapping_sub(a, b) & mask) as int == (a - b) % (mask + 1),
{
    let n = mask + 1;
    let w = vstd::wrapping::usize_specs::wrapping_sub(a, b);
    lemma_mask_is_mod(w, mask);
    let q = lemma_usize_range(n);
    if a - b < 0 {
        lemma_mod_multiples_vanish(q, a - b, n);
    }
}

} // verus!
