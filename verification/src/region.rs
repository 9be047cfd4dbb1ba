//! How a memory region is divided: metadata records in front, whole units behind.

use crate::bits;
use vstd::arithmetic::power2::*;
use vstd::prelude::*;

verus! {

/// The machine words in the record of one unit: state and order, then the two links.
pub const RECORD_WORDS: usize = 3;

/// The bytes in the record of one unit.
pub open spec fn record_bytes() -> int {
    RECORD_WORDS * bits::word_bytes()
}

/// Where the records start: records are aligned like machine words.
pub open spec fn table_start(start: int) -> int {
    bits::round_up(start, bits::word_bytes())
}

/// Where the last whole unit ends at the latest.
pub open spec fn data_end(start: int, size: int, min: nat) -> int {
    bits::round_down(start + size, pow2(min) as int)
}

/// Where the first unit starts behind the records of `n` units.
pub open spec fn data_start(start: int, min: nat, n: int) -> int {
    bits::round_up(table_start(start) + n * record_bytes(), pow2(min) as int)
}

/// The region `[start, start + size)` has room for `n` units of order `min` and their records.
pub open spec fn room_for(start: int, size: int, min: nat, n: int) -> bool {
    data_start(start, min, n) + n * pow2(min) <= data_end(start, size, min)
}

/// The greatest number of units up to `bound` that the region has room for; zero where
/// it has room for none.
pub open spec fn most_units(start: int, size: int, min: nat, bound: nat) -> nat
    decreases bound,
{
    if bound == 0 || room_for(start, size, min, bound as int) {
        bound
    } else {
        most_units(start, size, min, (bound - 1) as nat)
    }
}

/// Room for more units is room for fewer.
pub proof fn lemma_room_for_fewer(start: int, size: int, min: nat, n: int, m: int)
    requires
        n <= m,
        room_for(start, size, min, m),
    ensures
        room_for(start, size, min, n),
{
    bits::lemma_word_limit();
    lemma_pow2_pos(min);
    let unit = pow2(min) as int;
    assert(n * record_bytes() <= m * record_bytes()) by (nonlinear_arith)
        requires
            n <= m,
            record_bytes() >= 0,
    ;
    assert(n * unit <= m * unit) by (nonlinear_arith)
        requires
            n <= m,
            unit >= 0,
    ;
    bits::lemma_round_up_monotone(
        table_start(start) + n * record_bytes(),
        table_start(start) + m * record_bytes(),
        unit,
    );
}

/// Units and their records take no more than the region.
pub proof fn lemma_room_bound(start: int, size: int, min: nat, n: int)
    requires
        0 <= n,
        room_for(start, size, min, n),
    ensures
        n * (record_bytes() + pow2(min)) <= size,
        n * record_bytes() <= data_end(start, size, min) - table_start(start),
        n * record_bytes() >= 0,
        n * pow2(min) >= 0,
        start <= table_start(start),
        table_start(start) + n * record_bytes() <= data_start(start, min, n),
        data_end(start, size, min) <= start + size,
{
    bits::lemma_word_limit();
    lemma_pow2_pos(min);
    let unit = pow2(min) as int;
    bits::lemma_round_up(start, bits::word_bytes());
    bits::lemma_round_up(table_start(start) + n * record_bytes(), unit);
    bits::lemma_round_down(start + size, unit);
    vstd::arithmetic::mul::lemma_mul_is_distributive_add(n, record_bytes(), unit);
    assert(n * unit >= 0 && n * record_bytes() >= 0) by (nonlinear_arith)
        requires
            n >= 0,
            unit >= 0,
            record_bytes() >= 0,
    ;
}

/// A number of units that fits, where one more does not, is the greatest.
pub proof fn lemma_most_units_unique(start: int, size: int, min: nat, bound: nat, n: nat)
    requires
        n <= bound,
        n == 0 || room_for(start, size, min, n as int),
        n == bound || !room_for(start, size, min, n as int + 1),
    ensures
        most_units(start, size, min, bound) == n,
    decreases bound,
{
    if n < bound {
        if room_for(start, size, min, bound as int) {
            lemma_room_for_fewer(start, size, min, n as int + 1, bound as int);
        }
        lemma_most_units_unique(start, size, min, (bound - 1) as nat, n);
    }
}

/// What `most_units` returns fits, where it is not zero.
pub proof fn lemma_most_units(start: int, size: int, min: nat, bound: nat)
    ensures
        most_units(start, size, min, bound) <= bound,
        most_units(start, size, min, bound) > 0 ==> room_for(
            start,
            size,
            min,
            most_units(start, size, min, bound) as int,
        ),
    decreases bound,
{
    if bound > 0 && !room_for(start, size, min, bound as int) {
        lemma_most_units(start, size, min, (bound - 1) as nat);
    }
}

/// No more units fit than `most_units`.
pub proof fn lemma_most_units_is_most(start: int, size: int, min: nat, bound: nat, n: int)
    requires
        0 < n <= bound,
        room_for(start, size, min, n),
    ensures
        n <= most_units(start, size, min, bound),
    decreases bound,
{
    if !room_for(start, size, min, bound as int) {
        lemma_most_units_is_most(start, size, min, (bound - 1) as nat, n);
    }
}

/// The bytes in the record of one unit.
pub fn record_size() -> (bytes: usize)
    ensures
        bytes == record_bytes(),
        bytes * 8 == 3 * usize::BITS,
{
    RECORD_WORDS * bits::word_size()
}

/// A product with one factor rounded down from a quotient.
proof fn lemma_quotient(a: int, d: int, n: int)
    requires
        d > 0,
    ensures
        n <= a / d <==> n * d <= a,
{
    vstd::arithmetic::div_mod::lemma_fundamental_div_mod(a, d);
    let q = a / d;
    let r = a % d;
    assert(0 <= r < d);
    assert(n <= q ==> n * d <= d * q + r) by (nonlinear_arith)
        requires
            d > 0,
            r >= 0,
    ;
    assert(n >= q + 1 ==> n * d > d * q + r) by (nonlinear_arith)
        requires
            d > 0,
            r < d,
    ;
}

/// The greatest number of units of order `min` that fit, with their records, in the
/// region of `size` bytes at `start`, where the records start at `table` and the last
/// whole unit ends at `end`.
pub fn count_units(start: usize, size: usize, min: usize, table: usize, end: usize) -> (n: usize)
    requires
        min < usize::BITS,
        start + size <= usize::MAX,
        table == table_start(start as int),
        end == data_end(start as int, size as int, min as nat),
    ensures
        n == most_units(start as int, size as int, min as nat, size as nat),
{
    let ghost (s, z, k) = (start as int, size as int, min as nat);
    let unit: usize = bits::order_bytes(min);
    let record: usize = record_size();
    proof {
        bits::lemma_word_limit();
        bits::lemma_pow2_monotone(k, (usize::BITS - 1) as nat);
        bits::lemma_pow2_step((usize::BITS - 1) as nat);
        bits::lemma_round_up(s, bits::word_bytes());
        bits::lemma_round_down(s + z, unit as int);
        if room_for(s, z, k, 1) {
            lemma_room_bound(s, z, k, 1);
        }
    }
    if table >= end {
        proof {
            lemma_most_units_unique(s, z, k, size as nat, 0);
        }
        return 0;
    }
    // A bound that the search starts from: more units than this cannot fit.
    let by_size: usize = size / (record + unit);
    let by_records: usize = (end - table) / record;
    let most: usize = if by_size <= by_records {
        by_size
    } else {
        by_records
    };
    proof {
        let each = record + unit;
        lemma_quotient(z, each, most as int);
        lemma_quotient(z, each, most + 1);
        lemma_quotient(end - table, record as int, most as int);
        lemma_quotient(end - table, record as int, most + 1);
        if room_for(s, z, k, most + 1) {
            lemma_room_bound(s, z, k, most + 1);
        }
        assert(2 * most <= most * each) by (nonlinear_arith)
            requires
                each >= 2,
                most >= 0,
        ;
    }
    let mut lo: usize = 0;
    let mut hi: usize = most + 1;
    while lo + 1 < hi
        invariant
            lo < hi <= most + 1,
            most <= size,
            most * record <= end - table,
            most * (record + unit) <= size,
            lo == 0 || room_for(s, z, k, lo as int),
            !room_for(s, z, k, hi as int),
            s == start,
            z == size,
            k == min,
            record == record_bytes(),
            unit == pow2(k),
            unit > 0,
            table == table_start(s),
            end == data_end(s, z, k),
        decreases hi - lo,
    {
        let mid: usize = lo + (hi - lo) / 2;
        proof {
            assert(mid * record <= most * record && mid * unit <= most * (record + unit))
                by (nonlinear_arith)
                requires
                    0 <= mid <= most,
                    record >= 0,
                    unit >= 0,
            ;
        }
        let fits: bool = match bits::align_up(table + mid * record, unit) {
            Some(data) => match data.checked_add(mid * unit) {
                Some(needed) => needed <= end,
                None => false,
            },
            None => false,
        };
        if fits {
            lo = mid;
        } else {
            hi = mid;
        }
    }
    proof {
        lemma_most_units_unique(s, z, k, size as nat, lo as nat);
    }
    lo
}

} // verus!
