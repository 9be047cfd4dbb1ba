//! What each operation of the metadata heap does, in plain arithmetic.
//!
//! The statements speak of sizes, addresses and powers of two alone, so that they can be
//! read without the definitions that the contracts are stated with.

use crate::bits;
use crate::blocks;
use crate::blocks::Block;
use crate::frame_model;
use crate::layout;
use crate::layout::Layout;
use crate::metadata_heap;
use crate::metadata_heap::InitError;
use crate::model;
use crate::model::{Grant, HeapView};
use crate::region;
use vstd::arithmetic::power2::*;
use vstd::prelude::*;

verus! {

/// A size and an alignment make a layout exactly where the alignment is a power of two and
/// some multiple of it from the size up does not exceed `isize::MAX`.
pub proof fn law_layout(size: int, align: int, power: nat, times: int)
    requires
        0 <= size,
    ensures
        align == pow2(power) && size <= times * align && times * align <= isize::MAX
            ==> layout::makes_layout(size, align),
        layout::makes_layout(size, align) ==> {
            &&& exists|k: nat| align == #[trigger] pow2(k)
            &&& exists|q: int| size <= #[trigger] (q * align) && q * align <= isize::MAX
        },
{
    is_pow2_equiv(align);
    if align == pow2(power) && size <= times * align && times * align <= isize::MAX {
        lemma_pow2(power);
        lemma_pow2_pos(power);
        vstd::arithmetic::div_mod::lemma_mod_multiples_basic(times, align);
        bits::lemma_round_up(size, align);
        bits::lemma_multiples_apart(times * align, bits::round_up(size, align), align);
    }
    if layout::makes_layout(size, align) {
        let k: nat = choose|k: nat| vstd::arithmetic::power::pow(2, k) == align;
        lemma_pow2(k);
        lemma_pow2_pos(k);
        assert(align == pow2(k));
        bits::lemma_round_up(size, align);
        let q = (size + align - 1) / align;
        assert(size <= q * align && q * align <= isize::MAX);
    }
}

/// A request is served by the least order that is not below `min` and whose blocks are no
/// smaller than the size, the alignment and a machine word.
pub proof fn law_request_order(layout: Layout, min: nat, k: nat)
    ensures
        ({
            let order = metadata_heap::request_order(layout, min);
            &&& min <= order
            &&& layout.size() <= pow2(order)
            &&& layout.align() <= pow2(order)
            &&& usize::BITS as int / 8 <= pow2(order)
            &&& min <= k < order ==> pow2(k) < layout.size() || pow2(k) < layout.align()
                || pow2(k) < usize::BITS as int / 8
        }),
{
    let order = metadata_heap::request_order(layout, min);
    let bytes = metadata_heap::request_bytes(layout);
    bits::lemma_order_covering(bytes);
    bits::lemma_pow2_monotone(bits::order_covering(bytes), order);
    bits::lemma_order_covering_exceeds(bytes, k);
}

/// A heap that has not been given a region has empty lists, no grants and no bytes.
pub proof fn law_nothing(orders: nat, k: int)
    ensures
        ({
            let v = HeapView::nothing(orders);
            &&& v.free.len() == orders
            &&& 0 <= k < orders ==> v.free[k].len() == 0
            &&& forall|a: int| !(#[trigger] v.live.contains_key(a))
            &&& v.table_start == 0 && v.table_end == 0 && v.lo == 0 && v.hi == 0
            &&& v.user == 0 && v.allocated == 0 && v.total == 0
        }),
{
}

/// Lists that are all empty are those of a heap without free blocks.
pub proof fn law_empty_lists(free: Seq<Seq<int>>)
    requires
        forall|k: int| 0 <= k < free.len() ==> (#[trigger] free[k]).len() == 0,
    ensures
        free == model::no_lists(free.len()),
{
    assert forall|k: int| 0 <= k < free.len() implies #[trigger] free[k]
        =~= Seq::<int>::empty() by {}
    assert(free =~= model::no_lists(free.len()));
}

/// The region has room for `n` units exactly where the last of them ends in it: the records
/// of three words each start at `table`, the first multiple of a word from `start` on, and
/// the units at `data`, the first multiple of their size behind the records.
pub proof fn law_room(start: int, size: int, min: nat, n: int, table: int, data: int)
    requires
        table % (usize::BITS as int / 8) == 0,
        start <= table < start + usize::BITS as int / 8,
        data % (pow2(min) as int) == 0,
        table + n * (3 * (usize::BITS as int / 8)) <= data < table + n * (3 * (usize::BITS as int
            / 8)) + pow2(min),
    ensures
        region::room_for(start, size, min, n) <==> data + n * pow2(min) <= start + size,
        region::table_start(start) == table,
        region::data_start(start, min, n) == data,
{
    let word = bits::word_bytes();
    let unit = pow2(min) as int;
    bits::lemma_word_limit();
    lemma_pow2_pos(min);
    bits::lemma_round_up_unique(start, word, table);
    bits::lemma_round_up_unique(table + n * region::record_bytes(), unit, data);
    bits::lemma_round_down(start + size, unit);
    vstd::arithmetic::div_mod::lemma_mod_multiples_basic(n, unit);
    bits::lemma_multiples_add(data, n * unit, unit);
    let end = data + n * unit;
    let whole = bits::round_down(start + size, unit);
    bits::lemma_multiples_apart(whole, end, unit);
}

/// The number of units is the greatest that fits: `n` units that end in the region are no
/// more than it, and where `n` is that number, they do end in the region. `table` and `data`
/// are where the records and the units start.
pub proof fn law_most_units(start: int, size: int, min: nat, n: int, table: int, data: int)
    requires
        0 <= size,
        0 < n,
        table % (usize::BITS as int / 8) == 0,
        start <= table < start + usize::BITS as int / 8,
        data % (pow2(min) as int) == 0,
        table + n * (3 * (usize::BITS as int / 8)) <= data < table + n * (3 * (usize::BITS as int
            / 8)) + pow2(min),
    ensures
        data + n * pow2(min) <= start + size ==> n <= region::most_units(
            start,
            size,
            min,
            size as nat,
        ),
        n == region::most_units(start, size, min, size as nat) ==> data + n * pow2(min) <= start
            + size,
        region::data_end(start, size, min) % (pow2(min) as int) == 0,
        region::data_end(start, size, min) <= start + size < region::data_end(start, size, min)
            + pow2(min),
{
    let each = region::record_bytes() + pow2(min);
    bits::lemma_word_limit();
    lemma_pow2_pos(min);
    bits::lemma_round_down(start + size, pow2(min) as int);
    law_room(start, size, min, n, table, data);
    region::lemma_most_units(start, size, min, size as nat);
    if region::room_for(start, size, min, n) {
        region::lemma_room_bound(start, size, min, n);
        assert(n <= n * each) by (nonlinear_arith)
            requires
                n >= 0,
                each >= 1,
        ;
        region::lemma_most_units_is_most(start, size, min, size as nat, n);
    }
}

/// Which regions make a heap. The type parameters must fit; the start `table` of the records
/// and the end of the region must fit in a machine word; and one unit of `2^min` bytes must
/// fit behind its record of three words. `table` is the first multiple of a word from
/// `start` on, and `data` the first multiple of a unit behind one record.
pub proof fn law_carve_errors(
    orders: nat,
    min: nat,
    start: int,
    size: int,
    table: int,
    data: int,
)
    requires
        0 <= start,
        0 <= size,
        table % (usize::BITS as int / 8) == 0,
        start <= table < start + usize::BITS as int / 8,
        data % (pow2(min) as int) == 0,
        table + 3 * (usize::BITS as int / 8) <= data < table + 3 * (usize::BITS as int / 8) + pow2(
            min,
        ),
    ensures
        ({
            let carved = metadata_heap::carve(orders, min, start, size);
            if min >= orders || orders > 255 || pow2(min) < usize::BITS as int / 8 {
                carved == Err::<HeapView, InitError>(InitError::TooSmall)
            } else if table > usize::MAX || start + size > usize::MAX {
                carved == Err::<HeapView, InitError>(InitError::Overflow)
            } else if data + pow2(min) > start + size {
                carved == Err::<HeapView, InitError>(InitError::TooSmall)
            } else {
                carved is Ok
            }
        }),
{
    let n = region::most_units(start, size, min, size as nat);
    bits::lemma_word_limit();
    lemma_pow2_pos(min);
    law_room(start, size, min, 1, table, data);
    region::lemma_most_units(start, size, min, size as nat);
    if n > 0 {
        region::lemma_room_for_fewer(start, size, min, 1, n as int);
    } else if region::room_for(start, size, min, 1) {
        region::lemma_room_bound(start, size, min, 1);
        region::lemma_most_units_is_most(start, size, min, size as nat, 1);
    }
}

/// How a region is divided: records of three words from the first multiple of a word on, one
/// per unit; whole units from the first multiple of their size behind the records on; all of
/// it in the region. A new heap has no grants, and all its bytes are free.
pub proof fn law_carve_division(orders: nat, min: nat, start: int, size: int)
    requires
        0 <= start,
        0 <= size,
        metadata_heap::carve(orders, min, start, size) is Ok,
    ensures
        ({
            let v = metadata_heap::carve(orders, min, start, size)->Ok_0;
            let word = usize::BITS as int / 8;
            let unit = pow2(min) as int;
            &&& v.table_start % word == 0 && start <= v.table_start < start + word
            &&& v.lo % unit == 0 && v.table_end <= v.lo < v.table_end + unit
            &&& v.lo < v.hi <= start + size
            &&& (v.hi - v.lo) % unit == 0
            &&& v.table_end - v.table_start == ((v.hi - v.lo) / unit) * (3 * word)
            &&& v.total == v.hi - v.lo
            &&& v.user == 0 && v.allocated == 0
            &&& forall|a: int| !(#[trigger] v.live.contains_key(a))
            &&& v.free.len() == orders
        }),
{
    let v = metadata_heap::carve(orders, min, start, size)->Ok_0;
    let unit = pow2(min) as int;
    let n = region::most_units(start, size, min, size as nat) as int;
    bits::lemma_word_limit();
    lemma_pow2_pos(min);
    metadata_heap::lemma_carve(orders, min, start, size);
    bits::lemma_round_up(start, bits::word_bytes());
    bits::lemma_round_up(v.table_end, unit);
    vstd::arithmetic::div_mod::lemma_mod_multiples_basic(n, unit);
    vstd::arithmetic::div_mod::lemma_div_by_multiple(n, unit);
}

/// The data region is as large as the region allows: where `n` units would end in the
/// region, the heap has at least as many. `table` and `data` are where the records and the
/// units would start.
pub proof fn law_carve_is_greatest(
    orders: nat,
    min: nat,
    start: int,
    size: int,
    n: int,
    table: int,
    data: int,
)
    requires
        0 <= start,
        0 <= size,
        0 < n,
        min < orders <= 255,
        usize::BITS as int / 8 <= pow2(min),
        table % (usize::BITS as int / 8) == 0,
        start <= table < start + usize::BITS as int / 8,
        data % (pow2(min) as int) == 0,
        table + n * (3 * (usize::BITS as int / 8)) <= data < table + n * (3 * (usize::BITS as int
            / 8)) + pow2(min),
        data + n * pow2(min) <= start + size,
        table <= usize::MAX,
        start + size <= usize::MAX,
    ensures
        metadata_heap::carve(orders, min, start, size) is Ok,
        metadata_heap::carve(orders, min, start, size)->Ok_0.total >= n * pow2(min),
{
    let unit = pow2(min) as int;
    let most = region::most_units(start, size, min, size as nat) as int;
    let each = region::record_bytes() + unit;
    bits::lemma_word_limit();
    lemma_pow2_pos(min);
    law_room(start, size, min, n, table, data);
    region::lemma_room_bound(start, size, min, n);
    assert(n <= n * each) by (nonlinear_arith)
        requires
            n >= 0,
            each >= 1,
    ;
    region::lemma_most_units_is_most(start, size, min, size as nat, n);
    assert(n * unit <= most * unit) by (nonlinear_arith)
        requires
            n <= most,
            unit >= 0,
    ;
}

/// The free blocks of a new heap: each starts at a multiple of its size and lies in the data
/// region; it could not be twice as large, for want of orders, of alignment or of room; and
/// the lists hold the higher addresses first.
pub proof fn law_carve_blocks(
    orders: nat,
    min: nat,
    start: int,
    size: int,
    k: int,
    i: int,
    j: int,
)
    requires
        0 <= start,
        0 <= size,
        metadata_heap::carve(orders, min, start, size) is Ok,
        0 <= k < orders,
        0 <= i <= j < metadata_heap::carve(orders, min, start, size)->Ok_0.free[k].len(),
    ensures
        ({
            let v = metadata_heap::carve(orders, min, start, size)->Ok_0;
            let x = v.free[k][i];
            &&& x % (pow2(k as nat) as int) == 0
            &&& v.lo <= x && x + pow2(k as nat) <= v.hi
            &&& k + 1 == orders || x % (pow2((k + 1) as nat) as int) != 0 || x + pow2(
                (k + 1) as nat,
            ) > v.hi
            &&& i < j ==> v.free[k][j] < x
        }),
{
    let v = metadata_heap::carve(orders, min, start, size)->Ok_0;
    let top = (orders - 1) as nat;
    let b = Block { addr: v.free[k][i], order: k as nat };
    metadata_heap::lemma_carve(orders, min, start, size);
    model::lemma_no_lists(orders);
    model::lemma_seeded(model::no_lists(orders), v.lo, v.hi);
    blocks::lemma_greedy(v.lo, v.hi, top);
    assert(v.free[k].contains(b.addr));
    assert(model::free_blocks(v.free).contains(b));
    assert(blocks::greedy(v.lo, v.hi, top).contains(b));
    lemma_pow2_pos(b.order);
    blocks::lemma_fitting_order(b.addr, v.hi - b.addr, top);
    if k + 1 < orders {
        assert(pow2((k + 1) as nat) <= v.hi - b.addr ==> b.addr % (pow2((k + 1) as nat) as int)
            != 0);
    }
    lemma_seeded_descending(model::no_lists(orders), v.lo, v.hi);
}

/// The free blocks of a new heap leave no gap: each address of the data region is in one of
/// them, and in no second one.
pub proof fn law_carve_no_gaps(
    orders: nat,
    min: nat,
    start: int,
    size: int,
    a: int,
    b: Block,
    c: Block,
)
    requires
        0 <= start,
        0 <= size,
        metadata_heap::carve(orders, min, start, size) is Ok,
    ensures
        ({
            let v = metadata_heap::carve(orders, min, start, size)->Ok_0;
            &&& v.lo <= a < v.hi ==> exists|x: int, k: nat|
                k < orders && #[trigger] v.free[k as int].contains(x) && x <= a && a < x
                    + #[trigger] pow2(k)
            &&& b.order < orders && v.free[b.order as int].contains(b.addr) && c.order < orders
                && v.free[c.order as int].contains(c.addr) && b != c ==> b.addr + pow2(b.order)
                <= c.addr || c.addr + pow2(c.order) <= b.addr
        }),
{
    let v = metadata_heap::carve(orders, min, start, size)->Ok_0;
    let all = model::all_blocks(v.free, v.live, Set::empty());
    metadata_heap::lemma_carve(orders, min, start, size);
    if v.lo <= a < v.hi {
        assert(blocks::covered(all, a));
        let b = choose|b: Block| all.contains(b) && #[trigger] b.covers(a);
        let (x, k) = (b.addr, b.order);
        assert(k < orders && v.free[k as int].contains(x) && x <= a && a < x + pow2(k));
    }
    if b.order < orders && v.free[b.order as int].contains(b.addr) && c.order < orders
        && v.free[c.order as int].contains(c.addr) {
        assert(all.contains(b) && all.contains(c));
    }
}

/// Every list has its higher addresses first.
spec fn descending(free: Seq<Seq<int>>) -> bool {
    forall|k: int, i: int, j: int|
        0 <= k < free.len() && 0 <= i < j < free[k].len() ==> #[trigger] free[k][j]
            < #[trigger] free[k][i]
}

/// Seeding keeps the lists in descending order.
proof fn lemma_seeded_descending(free: Seq<Seq<int>>, lo: int, hi: int)
    requires
        free.len() > 0,
        descending(free),
        forall|k: int, i: int|
            0 <= k < free.len() && 0 <= i < free[k].len() ==> #[trigger] free[k][i] < lo,
    ensures
        descending(model::seeded(free, lo, hi)),
    decreases hi - lo,
{
    if lo < hi {
        let top = (free.len() - 1) as nat;
        let order = blocks::fitting_order(lo, hi - lo, top);
        blocks::lemma_fitting_order(lo, hi - lo, top);
        lemma_pow2_pos(order);
        let more = model::pushed(free, order as int, lo);
        assert forall|k: int, i: int, j: int|
            0 <= k < more.len() && 0 <= i < j < more[k].len() implies #[trigger] more[k][j]
            < #[trigger] more[k][i] by {
            if k == order {
                assert(more[k][j] == free[k][j - 1]);
                if i > 0 {
                    assert(more[k][i] == free[k][i - 1]);
                }
            }
        }
        assert forall|k: int, i: int|
            0 <= k < more.len() && 0 <= i < more[k].len() implies #[trigger] more[k][i] < lo + pow2(
            order,
        ) by {
            if k == order && i > 0 {
                assert(more[k][i] == free[k][i - 1]);
            }
        }
        lemma_seeded_descending(more, lo + pow2(order), hi);
    }
}

/// The blocks of a heap, free or granted, lie in the data region, start at multiples of
/// their size, and no two of them share an address.
pub proof fn law_blocks_apart(v: HeapView, min: nat, record: int, b: Block, c: Block)
    requires
        v.inv(min, record),
        (b.order < v.free.len() && v.free[b.order as int].contains(b.addr))
            || (v.live.contains_key(b.addr) && v.live[b.addr].order == b.order),
        (c.order < v.free.len() && v.free[c.order as int].contains(c.addr))
            || (v.live.contains_key(c.addr) && v.live[c.addr].order == c.order),
    ensures
        b.addr % (pow2(b.order) as int) == 0,
        v.lo <= b.addr && b.addr + pow2(b.order) <= v.hi,
        min <= b.order < v.free.len(),
        b != c ==> b.addr + pow2(b.order) <= c.addr || c.addr + pow2(c.order) <= b.addr,
{
    let all = model::all_blocks(v.free, v.live, Set::empty());
    assert(all.contains(b) && all.contains(c));
}

/// A block is never both free and granted, and is in its free list only once.
pub proof fn law_free_once(v: HeapView, min: nat, record: int, k: int, i: int, j: int)
    requires
        v.inv(min, record),
        0 <= k < v.free.len(),
        0 <= i < v.free[k].len(),
        0 <= j < v.free[k].len(),
    ensures
        !v.live.contains_key(v.free[k][i]),
        v.free[k][i] == v.free[k][j] ==> i == j,
{
    let all = model::all_blocks(v.free, v.live, Set::empty());
    let x = v.free[k][i];
    let b = Block { addr: x, order: k as nat };
    assert(v.free[k].contains(x));
    assert(model::free_blocks(v.free).contains(b));
    assert(v.free[k].no_duplicates());
    if v.live.contains_key(x) {
        let c = Block { addr: x, order: v.live[x].order };
        assert(all.contains(b) && all.contains(c));
        assert(model::live_blocks(v.live).contains(c));
        lemma_pow2_pos(b.order);
        lemma_pow2_pos(c.order);
    }
}

/// Every address of the data region belongs to a block.
pub proof fn law_no_gaps(v: HeapView, min: nat, record: int, a: int)
    requires
        v.inv(min, record),
        v.lo <= a < v.hi,
    ensures
        exists|x: int, k: nat|
            x <= a && a < x + #[trigger] pow2(k) && ((k < v.free.len()
                && #[trigger] v.free[k as int].contains(x)) || (v.live.contains_key(x)
                && v.live[x].order == k)),
{
    let all = model::all_blocks(v.free, v.live, Set::empty());
    assert(blocks::covered(all, a));
    let b = choose|b: Block| all.contains(b) && #[trigger] b.covers(a);
    let (x, k) = (b.addr, b.order);
    assert(x <= a && a < x + pow2(k) && ((k < v.free.len() && v.free[k as int].contains(x)) || (
    v.live.contains_key(x) && v.live[x].order == k)));
}

/// Where no list from order `k` up has a block, no block of that order can be granted.
pub proof fn law_alloc_refused(v: HeapView, k: int)
    requires
        0 <= k,
        forall|j: int| k <= j < v.free.len() ==> (#[trigger] v.free[j]).len() == 0,
    ensures
        !v.fits(k),
{
    model::lemma_first_fit(v.free, k);
}

/// Granting a block of order `k`, where `i` is the least order from `k` up with a free block:
/// the first block of that list is taken; of each order from `k` up to `i` its upper half is
/// left as the only free block; no other list changes. The grant is recorded with the size
/// asked for, which is what the requested bytes grow by; the granted bytes grow by `2^k`.
pub proof fn law_alloc(v: HeapView, k: int, i: int, size: Option<nat>)
    requires
        0 <= k <= i < v.free.len(),
        v.free[i].len() > 0,
        forall|j: int| k <= j < i ==> (#[trigger] v.free[j]).len() == 0,
    ensures
        v.fits(k),
        v.pick(k) == v.free[i][0],
        ({
            let w = v.after_alloc(k, size);
            let a = v.free[i][0];
            &&& w.free.len() == v.free.len()
            &&& w.free[i] == v.free[i].drop_first()
            &&& forall|j: int|
                k <= j < i ==> (#[trigger] w.free[j]).len() == 1 && w.free[j][0] == a + pow2(
                    j as nat,
                )
            &&& forall|j: int|
                (0 <= j < k || i < j < v.free.len()) ==> #[trigger] w.free[j] == v.free[j]
            &&& w.live == v.live.insert(a, Grant { order: k as nat, size })
            &&& size matches Some(n) ==> w.user == v.user + n
            &&& size is None ==> w.user == v.user
            &&& w.allocated == v.allocated + pow2(k as nat)
            &&& w.total == v.total
            &&& w.lo == v.lo && w.hi == v.hi
            &&& w.table_start == v.table_start && w.table_end == v.table_end
        }),
{
    model::lemma_first_fit(v.free, k);
    assert(model::first_fit(v.free, k) == i);
}

/// Dividing by twice a number is dividing by it and by two.
proof fn lemma_half_quotient(x: int, h: int)
    requires
        h > 0,
    ensures
        x / (2 * h) == (x / h) / 2,
{
    let q = x / h;
    let r = x % h;
    vstd::arithmetic::div_mod::lemma_fundamental_div_mod(x, h);
    assert(0 <= h * (q % 2) + r < 2 * h && x == (q / 2) * (2 * h) + (h * (q % 2) + r))
        by (nonlinear_arith)
        requires
            x == h * q + r,
            q == 2 * (q / 2) + q % 2,
            0 <= q % 2 < 2,
            0 <= r < h,
    ;
    vstd::arithmetic::div_mod::lemma_fundamental_div_mod_converse(
        x,
        2 * h,
        q / 2,
        h * (q % 2) + r,
    );
}

/// The other half of the block of order `order + 1` that holds `a`, told by quotients: it
/// starts at `t` exactly where `t` is a multiple of `2^order` in that block and not in the
/// same half as `a`.
pub proof fn lemma_twin(a: int, t: int, order: nat)
    ensures
        t == blocks::buddy_addr(a - a % (pow2(order) as int), order) <==> t % (pow2(order) as int)
            == 0 && t / (pow2(order + 1) as int) == a / (pow2(order + 1) as int) && t / (pow2(
            order,
        ) as int) != a / (pow2(order) as int),
{
    let h = pow2(order) as int;
    bits::lemma_pow2_step(order);
    vstd::arithmetic::div_mod::lemma_fundamental_div_mod(a, h);
    vstd::arithmetic::div_mod::lemma_fundamental_div_mod(t, h);
    lemma_half_quotient(a, h);
    lemma_half_quotient(t, h);
    let q = a / h;
    let c = a - a % h;
    assert(c == (2 * h) * (q / 2) + h * (q % 2)) by (nonlinear_arith)
        requires
            c == h * q,
            q == 2 * (q / 2) + q % 2,
    ;
    assert(h * 0 == 0 && h * 1 == h && h * 2 == 2 * h);
    vstd::arithmetic::div_mod::lemma_fundamental_div_mod_converse(c, 2 * h, q / 2, h * (q % 2));
    let b = blocks::buddy_addr(c, order);
    let r = if q % 2 == 0 {
        q + 1
    } else {
        q - 1
    };
    assert(b == r * h) by (nonlinear_arith)
        requires
            c == h * q,
            (r == q + 1 && b == c + h) || (r == q - 1 && b == c - h),
    ;
    vstd::arithmetic::div_mod::lemma_fundamental_div_mod_converse(b, h, r, 0);
    lemma_half_quotient(b, h);
    vstd::arithmetic::mul::lemma_mul_is_commutative(h, t / h);
}

/// Giving back the grant at `a`, where the block grows to order `m`: the other half
/// `twins[j]` of the block of `2^(j + 1)` bytes that holds `a` is free for each order from
/// that of the grant up to `m`, and then either no order is left or it is not. The halves
/// that were free leave their lists, the grown block heads the list of order `m`, and no
/// other list changes. The sums shrink by the size asked for and by the size of the block.
pub proof fn law_dealloc(v: HeapView, a: int, m: int, twins: Seq<int>)
    requires
        v.live.contains_key(a),
        v.live[a].order <= m < v.free.len(),
        a % (pow2(v.live[a].order) as int) == 0,
        twins.len() > m,
        forall|j: int|
            v.live[a].order <= j <= m ==> #[trigger] twins[j] % (pow2(j as nat) as int) == 0
                && twins[j] / (pow2((j + 1) as nat) as int) == a / (pow2((j + 1) as nat) as int)
                && twins[j] / (pow2(j as nat) as int) != a / (pow2(j as nat) as int),
        forall|j: int| v.live[a].order <= j < m ==> v.free[j].contains(#[trigger] twins[j]),
        m + 1 == v.free.len() || !v.free[m].contains(twins[m]),
    ensures
        ({
            let w = v.after_dealloc(a);
            let k = v.live[a].order;
            &&& w.free.len() == v.free.len()
            &&& w.free[m] == seq![a - a % (pow2(m as nat) as int)] + v.free[m]
            &&& forall|j: int|
                k <= j < m ==> #[trigger] w.free[j] == v.free[j].remove(
                    v.free[j].index_of(twins[j]),
                )
            &&& forall|j: int|
                (0 <= j < k || m < j < v.free.len()) ==> #[trigger] w.free[j] == v.free[j]
            &&& w.live == v.live.remove(a)
            &&& v.live[a].size matches Some(n) ==> w.user == v.user - n
            &&& v.live[a].size is None ==> w.user == v.user
            &&& w.allocated == v.allocated - pow2(k)
            &&& w.total == v.total
            &&& w.lo == v.lo && w.hi == v.hi
            &&& w.table_start == v.table_start && w.table_end == v.table_end
        }),
{
    let k = v.live[a].order;
    assert forall|j: int| k <= j <= m implies #[trigger] twins[j] == blocks::buddy_addr(
        a - a % (pow2(j as nat) as int),
        j as nat,
    ) by {
        lemma_twin(a, twins[j], j as nat);
    }
    lemma_coalesce_to(v.free, a, k as int, m, twins);
}

/// What `coalesce` does from order `k` on.
proof fn lemma_coalesce_to(free: Seq<Seq<int>>, a: int, k: int, m: int, twins: Seq<int>)
    requires
        0 <= k <= m < free.len(),
        forall|j: int|
            k <= j <= m ==> #[trigger] twins[j] == blocks::buddy_addr(
                a - a % (pow2(j as nat) as int),
                j as nat,
            ),
        forall|j: int| k <= j < m ==> free[j].contains(#[trigger] twins[j]),
        m + 1 == free.len() || !free[m].contains(twins[m]),
    ensures
        ({
            let after = model::coalesce(free, a - a % (pow2(k as nat) as int), k as nat);
            &&& after.len() == free.len()
            &&& after[m] == seq![a - a % (pow2(m as nat) as int)] + free[m]
            &&& forall|j: int|
                k <= j < m ==> #[trigger] after[j] == free[j].remove(free[j].index_of(twins[j]))
            &&& forall|j: int|
                (0 <= j < k || m < j < free.len()) ==> #[trigger] after[j] == free[j]
        }),
    decreases m - k,
{
    let c = a - a % (pow2(k as nat) as int);
    assert(twins[k] == blocks::buddy_addr(c, k as nat));
    if k < m {
        let b = Block { addr: a, order: 0 };
        bits::lemma_pow2_step(0);
        lemma_pow2_pos(k as nat);
        lemma_pow2_pos((k + 1) as nat);
        frame_model::lemma_ancestor(b, k as nat);
        bits::lemma_round_down(a, pow2(k as nat) as int);
        bits::lemma_round_down(a, pow2((k + 1) as nat) as int);
        let rest = model::dropped(free, k, twins[k]);
        lemma_coalesce_to(rest, a, k + 1, m, twins);
    }
}

/// What the sets of free and of granted blocks hold.
pub proof fn law_block_sets(v: HeapView, b: Block)
    ensures
        model::free_blocks(v.free).contains(b) <==> b.order < v.free.len()
            && v.free[b.order as int].contains(b.addr),
        model::live_blocks(v.live).contains(b) <==> v.live.contains_key(b.addr)
            && v.live[b.addr].order == b.order,
        model::all_blocks(v.free, v.live, Set::empty()).contains(b) <==> (b.order < v.free.len()
            && v.free[b.order as int].contains(b.addr)) || (v.live.contains_key(b.addr)
            && v.live[b.addr].order == b.order),
{
}

/// The bytes in the free lists: none where the lists are empty, and `2^k` for each block of
/// list `k`.
pub proof fn law_weight(free: Seq<Seq<int>>, k: int, list: Seq<int>)
    requires
        0 <= k < free.len(),
    ensures
        model::weight(free.update(k, list)) + free[k].len() * pow2(k as nat) == model::weight(free)
            + list.len() * pow2(k as nat),
        (forall|j: int| 0 <= j < free.len() ==> (#[trigger] free[j]).len() == 0)
            ==> model::weight(free) == 0,
{
    model::lemma_weight_update(free, k, list, free.len() as int);
    vstd::arithmetic::mul::lemma_mul_is_distributive_sub_other_way(
        pow2(k as nat) as int,
        list.len() as int,
        free[k].len() as int,
    );
    if forall|j: int| 0 <= j < free.len() ==> (#[trigger] free[j]).len() == 0 {
        law_empty_lists(free);
        model::lemma_no_lists(free.len());
    }
}

/// The sums over the grants: nothing without grants, and for one more grant its size asked
/// for and the size of its block.
pub proof fn law_sums(live: Map<int, Grant>, a: int, grant: Grant)
    requires
        live.dom().finite(),
        !live.contains_key(a),
    ensures
        model::granted_bytes(live.insert(a, grant)) == model::granted_bytes(live) + pow2(
            grant.order,
        ),
        grant.size matches Some(n) ==> model::requested_bytes(live.insert(a, grant))
            == model::requested_bytes(live) + n,
        grant.size is None ==> model::requested_bytes(live.insert(a, grant))
            == model::requested_bytes(live),
        model::granted_bytes(Map::empty()) == 0,
        model::requested_bytes(Map::empty()) == 0,
{
    model::lemma_sums_insert(live, a, grant);
}

} // verus!
