//! Powers of two, and rounding to multiples.

use vstd::arithmetic::power2::*;
use vstd::prelude::*;

verus! {

/// The least order `k` such that `2^k` is at least `n`.
pub open spec fn order_covering(n: int) -> nat
    decreases n,
{
    if n <= 1 {
        0
    } else {
        1 + order_covering((n + 1) / 2)
    }
}

/// The least multiple of `m` that is not below `a`.
pub open spec fn round_up(a: int, m: int) -> int {
    ((a + m - 1) / m) * m
}

/// The greatest multiple of `m` that is not above `a`.
pub open spec fn round_down(a: int, m: int) -> int {
    (a / m) * m
}

/// The size of a machine word, in bytes.
pub open spec fn word_bytes() -> int {
    usize::BITS as int / 8
}

/// `pow2` never decreases.
pub proof fn lemma_pow2_monotone(i: nat, j: nat)
    requires
        i <= j,
    ensures
        0 < pow2(i) <= pow2(j),
{
    lemma_pow2_pos(i);
    if i < j {
        lemma_pow2_strictly_increases(i, j);
    }
}

/// A power of two that fits in a machine word has an order below the word's width.
pub proof fn lemma_order_fits(k: nat)
    requires
        pow2(k) <= usize::MAX,
    ensures
        k < usize::BITS,
{
    if k >= usize::BITS {
        lemma_pow2_monotone(usize::BITS as nat, k);
        lemma_word_limit();
    }
}

/// The first power of two that does not fit in a machine word.
pub proof fn lemma_word_limit()
    ensures
        pow2(usize::BITS as nat) == usize::MAX + 1,
        usize::BITS == 32 || usize::BITS == 64,
{
    lemma2_to64();
    lemma2_to64_rest();
}

/// `2^0` is 1 and `2^(k+1)` is twice `2^k`.
pub proof fn lemma_pow2_step(k: nat)
    ensures
        pow2(k + 1) == 2 * pow2(k),
        pow2(0) == 1,
        pow2(k) > 0,
{
    lemma_pow2_unfold(k + 1);
    lemma2_to64();
    lemma_pow2_pos(k);
}

/// `order_covering` is the only order between two neighbouring powers of two.
pub proof fn lemma_order_covering_unique(n: int, k: nat)
    requires
        n <= pow2(k),
        k > 0 ==> pow2((k - 1) as nat) < n,
    ensures
        order_covering(n) == k,
    decreases k,
{
    if k > 0 {
        lemma_pow2_step((k - 1) as nat);
        lemma_pow2_pos((k - 1) as nat);
        if k > 1 {
            lemma_pow2_step((k - 2) as nat);
        }
        lemma_order_covering_unique((n + 1) / 2, (k - 1) as nat);
    } else {
        lemma_pow2_step(0);
    }
}

/// `2^order_covering(n)` covers `n`, and no lower power does.
pub proof fn lemma_order_covering(n: int)
    ensures
        n <= pow2(order_covering(n)),
        order_covering(n) > 0 ==> pow2((order_covering(n) - 1) as nat) < n,
    decreases n,
{
    if n <= 1 {
        lemma_pow2_step(0);
    } else {
        let m = (n + 1) / 2;
        lemma_order_covering(m);
        lemma_pow2_step(order_covering(m));
        if order_covering(m) > 0 {
            lemma_pow2_step((order_covering(m) - 1) as nat);
        } else {
            lemma_pow2_step(0);
        }
    }
}

/// `order_covering(n)` exceeds `k` exactly where `n` exceeds `2^k`.
pub proof fn lemma_order_covering_exceeds(n: int, k: nat)
    ensures
        order_covering(n) > k <==> n > pow2(k),
{
    lemma_order_covering(n);
    if order_covering(n) > k {
        lemma_pow2_monotone(k, (order_covering(n) - 1) as nat);
    } else {
        lemma_pow2_monotone(order_covering(n), k);
    }
}

/// `round_up` lands on a multiple within one step above its argument.
pub proof fn lemma_round_up(a: int, m: int)
    requires
        m > 0,
    ensures
        a <= round_up(a, m) < a + m,
        round_up(a, m) % m == 0,
{
    let q = (a + m - 1) / m;
    vstd::arithmetic::div_mod::lemma_fundamental_div_mod(a + m - 1, m);
    vstd::arithmetic::mul::lemma_mul_is_commutative(q, m);
    vstd::arithmetic::div_mod::lemma_mod_multiples_basic(q, m);
}

/// Any multiple within one step above `a` is `round_up(a, m)`.
pub proof fn lemma_round_up_unique(a: int, m: int, r: int)
    requires
        m > 0,
        r % m == 0,
        a <= r < a + m,
    ensures
        round_up(a, m) == r,
{
    lemma_round_up(a, m);
    lemma_multiples_apart(round_up(a, m), r, m);
    lemma_multiples_apart(r, round_up(a, m), m);
}

/// `round_up` never decreases in its first argument.
pub proof fn lemma_round_up_monotone(a: int, b: int, m: int)
    requires
        m > 0,
        a <= b,
    ensures
        round_up(a, m) <= round_up(b, m),
{
    lemma_round_up(a, m);
    lemma_round_up(b, m);
    lemma_multiples_apart(round_up(b, m), round_up(a, m), m);
}

/// `round_down` lands on a multiple within one step below its argument.
pub proof fn lemma_round_down(a: int, m: int)
    requires
        m > 0,
    ensures
        a - m < round_down(a, m) <= a,
        round_down(a, m) % m == 0,
        round_down(a, m) == a - a % m,
{
    vstd::arithmetic::div_mod::lemma_fundamental_div_mod(a, m);
    vstd::arithmetic::mul::lemma_mul_is_commutative(a / m, m);
    vstd::arithmetic::div_mod::lemma_mod_multiples_basic(a / m, m);
}

/// Two different multiples of `m` are at least `m` apart.
pub proof fn lemma_multiples_apart(x: int, y: int, m: int)
    requires
        m > 0,
        x % m == 0,
        y % m == 0,
    ensures
        x < y ==> x + m <= y,
{
    vstd::arithmetic::div_mod::lemma_fundamental_div_mod(x, m);
    vstd::arithmetic::div_mod::lemma_fundamental_div_mod(y, m);
    let i = x / m;
    let j = y / m;
    if x < y {
        assert(i < j) by (nonlinear_arith)
            requires
                m * i < m * j,
                m > 0,
        ;
        assert(m * i + m <= m * j) by (nonlinear_arith)
            requires
                i + 1 <= j,
                m > 0,
        ;
    }
}

/// Sums and differences of multiples are multiples.
pub proof fn lemma_multiples_add(x: int, y: int, m: int)
    requires
        m > 0,
        x % m == 0,
        y % m == 0,
    ensures
        (x + y) % m == 0,
        (x - y) % m == 0,
{
    vstd::arithmetic::div_mod::lemma_fundamental_div_mod(x, m);
    vstd::arithmetic::div_mod::lemma_fundamental_div_mod(y, m);
    let i = x / m;
    let j = y / m;
    assert(x + y == (i + j) * m) by (nonlinear_arith)
        requires
            x == m * i,
            y == m * j,
    ;
    assert(x - y == (i - j) * m) by (nonlinear_arith)
        requires
            x == m * i,
            y == m * j,
    ;
    vstd::arithmetic::div_mod::lemma_mod_multiples_basic(i + j, m);
    vstd::arithmetic::div_mod::lemma_mod_multiples_basic(i - j, m);
}

/// A multiple of a power of two is a multiple of every lower power of two.
pub proof fn lemma_multiple_of_lower(x: int, i: nat, j: nat)
    requires
        i <= j,
        x % (pow2(j) as int) == 0,
    ensures
        x % (pow2(i) as int) == 0,
        pow2(j) as int % (pow2(i) as int) == 0,
{
    lemma_pow2_pos(i);
    lemma_pow2_pos(j);
    lemma_pow2_adds(i, (j - i) as nat);
    let lo = pow2(i) as int;
    let up = pow2((j - i) as nat) as int;
    let q = x / (pow2(j) as int);
    vstd::arithmetic::div_mod::lemma_fundamental_div_mod(x, pow2(j) as int);
    assert(x == (up * q) * lo) by (nonlinear_arith)
        requires
            x == (lo * up) * q,
    ;
    vstd::arithmetic::div_mod::lemma_mod_multiples_basic(up * q, lo);
    vstd::arithmetic::mul::lemma_mul_is_commutative(lo, up);
    vstd::arithmetic::div_mod::lemma_mod_multiples_basic(up, lo);
}

/// The size of a machine word, in bytes.
pub fn word_size() -> (bytes: usize)
    ensures
        bytes == word_bytes(),
        bytes == 4 || bytes == 8,
        bytes * 8 == usize::BITS,
{
    proof {
        broadcast use vstd::layout::layout_of_primitives;

        lemma_word_limit();
    }
    core::mem::size_of::<usize>()
}

/// `2^order`.
pub fn order_bytes(order: usize) -> (bytes: usize)
    requires
        order < usize::BITS,
    ensures
        bytes == pow2(order as nat),
{
    proof {
        vstd::bits::lemma_usize_pow2_no_overflow(order as nat);
        vstd::bits::lemma_usize_shl_is_mul(1, order);
    }
    1usize << order
}

/// The greatest order such that `2^order` divides `value`.
pub fn trailing_order(value: usize) -> (order: usize)
    requires
        value > 0,
    ensures
        order < usize::BITS,
        value as int % (pow2(order as nat) as int) == 0,
        value as int % (pow2(order as nat + 1) as int) != 0,
{
    let wide: u64 = value as u64;
    let zeros: u32 = wide.trailing_zeros();
    proof {
        let z = zeros as u64;
        vstd::std_specs::bits::axiom_u64_trailing_zeros(wide);
        assert(z < 64);
        vstd::bits::lemma_u64_pow2_no_overflow(z as nat);
        vstd::bits::lemma_u64_shl_is_mul(1, z);
        let p: u64 = 1u64 << z;
        assert(p == pow2(z as nat));
        vstd::bits::lemma_u64_shr_is_div(wide, z);
        vstd::bits::lemma_u64_low_bits_mask_is_mod(wide, z as nat);
        let mask: u64 = (p - 1) as u64;
        assert(wide >= p && wide & mask == 0 && (wide >> z) % 2 == 1) by (bit_vector)
            requires
                z < 64,
                p == 1u64 << z,
                mask == p - 1,
                (wide >> z) & 1u64 == 1u64,
                wide << ((64 - z) as u64) == 0,
        ;
        lemma_order_fits(z as nat);
        lemma_pow2_step(z as nat);
        let p = p as int;
        let w = wide as int;
        if w % (2 * p) == 0 {
            vstd::arithmetic::div_mod::lemma_fundamental_div_mod(w, 2 * p);
            let q = w / (2 * p);
            assert(w == (2 * q) * p) by (nonlinear_arith)
                requires
                    w == (2 * p) * q,
            ;
            vstd::arithmetic::div_mod::lemma_div_by_multiple(2 * q, p);
        }
    }
    zeros as usize
}

/// The greatest order such that `2^order` is at most `value`.
pub fn floor_order(value: usize) -> (order: usize)
    requires
        value > 0,
    ensures
        order < usize::BITS,
        pow2(order as nat) <= value < pow2(order as nat + 1),
{
    let wide: u64 = value as u64;
    let zeros: u32 = wide.leading_zeros();
    proof {
        let z = zeros as u64;
        vstd::std_specs::bits::axiom_u64_leading_zeros(wide);
        assert(z < 64);
        let k: u64 = (63 - z) as u64;
        vstd::bits::lemma_u64_pow2_no_overflow(k as nat);
        vstd::bits::lemma_u64_shl_is_mul(1, k);
        let p: u64 = 1u64 << k;
        assert(p <= wide && wide - p < p) by (bit_vector)
            requires
                k < 64,
                p == 1u64 << k,
                (wide >> k) & 1u64 != 0u64,
                wide >> ((k + 1) as u64) == 0,
        ;
        lemma_order_fits(k as nat);
        lemma_pow2_step(k as nat);
    }
    (63 - zeros) as usize
}

/// The greatest power of two that is at most `num`.
pub fn prev_power_of_two(num: usize) -> (power: usize)
    requires
        num > 0,
    ensures
        is_pow2(power as int),
        power <= num < 2 * power,
{
    let order: usize = floor_order(num);
    proof {
        lemma_pow2_step(order as nat);
        lemma_pow2(order as nat);
        is_pow2_equiv(pow2(order as nat) as int);
    }
    order_bytes(order)
}

/// The order of the least power of two that is at least `value`.
pub fn ceil_order(value: usize) -> (order: usize)
    ensures
        order == order_covering(value as int),
        order <= usize::BITS,
        value <= pow2(order as nat),
        order > 0 ==> pow2((order - 1) as nat) < value,
{
    proof {
        lemma_order_covering(value as int);
    }
    if value <= 1 {
        0
    } else {
        let below: usize = floor_order(value - 1);
        proof {
            lemma_order_covering_unique(value as int, below as nat + 1);
        }
        below + 1
    }
}

/// Whether `value` is a power of two.
pub fn is_power_of_two(value: usize) -> (yes: bool)
    ensures
        yes == is_pow2(value as int),
{
    if value == 0 {
        proof {
            reveal(is_pow2);
        }
        return false;
    }
    let order: usize = floor_order(value);
    let yes: bool = order_bytes(order) == value;
    proof {
        is_pow2_equiv(value as int);
        if yes {
            lemma_pow2(order as nat);
        } else if is_pow2(value as int) {
            let k: nat = choose|k: nat| vstd::arithmetic::power::pow(2, k) == value as int;
            lemma_pow2(k);
            if k <= order {
                lemma_pow2_monotone(k, order as nat);
                if k < order {
                    lemma_pow2_strictly_increases(k, order as nat);
                }
            } else {
                lemma_pow2_monotone(order as nat + 1, k);
            }
        }
    }
    yes
}

/// Round `addr` up to the next multiple of `align`.
/// Returns `None` on overflow, and where `align` is zero.
pub fn align_up(addr: usize, align: usize) -> (aligned: Option<usize>)
    ensures
        aligned == (if align == 0 || round_up(addr as int, align as int) > usize::MAX {
            None::<usize>
        } else {
            Some(round_up(addr as int, align as int) as usize)
        }),
        match aligned {
            Some(up) => align > 0 && up as int % align as int == 0 && addr <= up && up < addr
                + align,
            None => align == 0 || forall|up: int|
                up >= addr && #[trigger] (up % align as int) == 0 ==> up > usize::MAX,
        },
{
    if align == 0 {
        return None;
    }
    let excess: usize = addr % align;
    proof {
        let a = addr as int;
        let m = align as int;
        lemma_round_down(a, m);
        let r = if excess == 0 { a } else { a - excess + m };
        lemma_multiples_add(a - excess, m, m);
        lemma_round_up_unique(a, m, r);
        lemma_round_up(a, m);
        assert forall|up: int| up >= a && #[trigger] (up % m) == 0 implies up >= r by {
            lemma_multiples_apart(up, r, m);
        }
    }
    if excess == 0 {
        Some(addr)
    } else {
        addr.checked_add(align - excess)
    }
}

/// Round `addr` down to the previous multiple of `align`.
pub fn align_down(addr: usize, align: usize) -> (aligned: usize)
    requires
        align > 0,
    ensures
        aligned == round_down(addr as int, align as int),
        aligned as int % align as int == 0,
        aligned <= addr < aligned + align,
{
    proof {
        lemma_round_down(addr as int, align as int);
    }
    addr - addr % align
}

} // verus!
