//! What holds of the metadata heap as a whole, whatever the calls.
//!
//! The laws speak of [`HeapView`], the model that the contracts of
//! [`MetadataHeap`](crate::metadata_heap::MetadataHeap) are stated over. A heap that
//! satisfies `wf` has a model that satisfies `inv`.

use crate::bits;
use crate::blocks;
use crate::blocks::Block;
use crate::layout::Layout;
use crate::metadata_heap;
use crate::model;
use crate::model::{Grant, HeapView};
use crate::region;
use vstd::arithmetic::power2::*;
use vstd::prelude::*;

verus! {

/// The block of a grant.
pub open spec fn block_at(v: HeapView, a: int) -> Block {
    Block { addr: a, order: v.live[a].order }
}

/// The address belongs to a free block.
pub open spec fn is_free_at(v: HeapView, a: int) -> bool {
    blocks::covered(model::free_blocks(v.free), a)
}

/// The address belongs to a grant.
pub open spec fn is_live_at(v: HeapView, a: int) -> bool {
    blocks::covered(model::live_blocks(v.live), a)
}

/// The two heaps have the same blocks in each list, and so the same number of them.
pub open spec fn same_free(v: HeapView, w: HeapView) -> bool {
    &&& v.free.len() == w.free.len()
    &&& model::free_blocks(v.free) == model::free_blocks(w.free)
    &&& forall|k: int|
        0 <= k < v.free.len() ==> (#[trigger] v.free[k]).len() == w.free[k].len()
}

/// Every live block lies in the data region, starts at a multiple of its size, and is no
/// smaller than a unit.
pub proof fn law_live_block_in_region(v: HeapView, min: nat, record: int, a: int)
    requires
        v.inv(min, record),
        v.live.contains_key(a),
    ensures
        v.lo <= a && block_at(v, a).end() <= v.hi,
        block_at(v, a).aligned(),
        min <= v.live[a].order < v.free.len(),
        v.live[a].requested() <= v.live[a].bytes(),
{
    assert(model::live_blocks(v.live).contains(block_at(v, a)));
    assert(model::all_blocks(v.free, v.live, Set::empty()).contains(block_at(v, a)));
}

/// No two live blocks overlap.
pub proof fn law_live_blocks_disjoint(v: HeapView, min: nat, record: int, a: int, b: int)
    requires
        v.inv(min, record),
        v.live.contains_key(a),
        v.live.contains_key(b),
        a != b,
    ensures
        block_at(v, a).disjoint(block_at(v, b)),
{
    let all = model::all_blocks(v.free, v.live, Set::empty());
    assert(all.contains(block_at(v, a)));
    assert(all.contains(block_at(v, b)));
}

/// Every address of the data region belongs to a free block or to a live one, and never
/// to both.
pub proof fn law_free_or_live(v: HeapView, min: nat, record: int, a: int)
    requires
        v.inv(min, record),
    ensures
        v.lo <= a < v.hi <==> is_free_at(v, a) || is_live_at(v, a),
        !(is_free_at(v, a) && is_live_at(v, a)),
{
    let free = model::free_blocks(v.free);
    let live = model::live_blocks(v.live);
    let all = model::all_blocks(v.free, v.live, Set::empty());
    if v.lo <= a < v.hi {
        assert(blocks::covered(all, a));
        let b = choose|b: Block| all.contains(b) && #[trigger] b.covers(a);
        if free.contains(b) {
            assert(free.contains(b) && b.covers(a));
        } else {
            assert(live.contains(b) && b.covers(a));
        }
    }
    if is_free_at(v, a) {
        let b = choose|b: Block| free.contains(b) && #[trigger] b.covers(a);
        assert(all.contains(b));
        if is_live_at(v, a) {
            let c = choose|c: Block| live.contains(c) && #[trigger] c.covers(a);
            assert(all.contains(c));
            assert(b == c);
        }
    }
    if is_live_at(v, a) {
        let c = choose|c: Block| live.contains(c) && #[trigger] c.covers(a);
        assert(all.contains(c));
    }
}

/// The bytes granted and the bytes in the free lists add up to the data region.
pub proof fn law_conservation(v: HeapView, min: nat, record: int)
    requires
        v.inv(min, record),
    ensures
        v.allocated + model::weight(v.free) == v.total,
        v.total == v.hi - v.lo,
{
}

/// The statistics are the sums over the live blocks: of the sizes asked for, and of the
/// sizes of the blocks. No more is requested than granted, and no more granted than there is.
pub proof fn law_stats(v: HeapView, min: nat, record: int)
    requires
        v.inv(min, record),
    ensures
        v.user == model::requested_bytes(v.live),
        v.allocated == model::granted_bytes(v.live),
        0 <= v.user <= v.allocated <= v.total,
{
    model::lemma_requested_le_granted(v.live);
}

/// The free blocks depend on the live ones alone: two heaps over one region that have the
/// same blocks live have the same blocks free, whatever calls led there.
pub proof fn law_free_determined_by_live(v: HeapView, w: HeapView, min: nat, record: int)
    requires
        v.inv(min, record),
        w.inv(min, record),
        v.lo == w.lo,
        v.hi == w.hi,
        v.free.len() == w.free.len(),
        model::live_blocks(v.live) == model::live_blocks(w.live),
    ensures
        same_free(v, w),
{
    let s = model::free_blocks(v.free);
    let t = model::free_blocks(w.free);
    let top = (v.free.len() - 1) as nat;
    lemma_free_packed(v, min, record);
    lemma_free_packed(w, min, record);
    assert forall|a: int| #[trigger] blocks::covered(s, a) == blocks::covered(t, a) by {
        law_free_or_live(v, min, record, a);
        law_free_or_live(w, min, record, a);
    }
    blocks::lemma_merged_packings_agree(s, t, top);
    lemma_same_counts(v.free, w.free);
}

/// The free blocks of a heap are aligned, apart from each other, and merged.
proof fn lemma_free_packed(v: HeapView, min: nat, record: int)
    requires
        v.inv(min, record),
    ensures
        blocks::packed(model::free_blocks(v.free)),
        blocks::merged(model::free_blocks(v.free), (v.free.len() - 1) as nat),
        forall|b: Block| #[trigger]
            model::free_blocks(v.free).contains(b) ==> b.order <= (v.free.len() - 1) as nat,
{
    let s = model::free_blocks(v.free);
    let all = model::all_blocks(v.free, v.live, Set::empty());
    assert(forall|b: Block| #[trigger] s.contains(b) ==> all.contains(b));
}

/// Lists that hold the same blocks once each have the same lengths.
proof fn lemma_same_counts(s: Seq<Seq<int>>, t: Seq<Seq<int>>)
    requires
        s.len() == t.len(),
        model::distinct(s),
        model::distinct(t),
        model::free_blocks(s) == model::free_blocks(t),
    ensures
        forall|k: int| 0 <= k < s.len() ==> (#[trigger] s[k]).len() == t[k].len(),
{
    assert forall|k: int| 0 <= k < s.len() implies (#[trigger] s[k]).len() == t[k].len() by {
        assert forall|a: int| s[k].contains(a) == t[k].contains(a) by {
            let b = Block { addr: a, order: k as nat };
            assert(model::free_blocks(s).contains(b) == s[k].contains(a));
            assert(model::free_blocks(t).contains(b) == t[k].contains(a));
        }
        assert(s[k].to_set() =~= t[k].to_set());
        assert(t[k].no_duplicates());
        s[k].unique_seq_to_set();
        t[k].unique_seq_to_set();
    }
}

/// Equal sets of free blocks are lists with the same members.
proof fn lemma_same_members(v: HeapView, w: HeapView)
    requires
        same_free(v, w),
    ensures
        forall|k: int, c: int|
            0 <= k < v.free.len() ==> #[trigger] v.free[k].contains(c) == w.free[k].contains(c),
        forall|k: int| 0 <= k < v.free.len() ==> (#[trigger] v.free[k]).len() == w.free[k].len(),
{
    assert forall|k: int, c: int| 0 <= k < v.free.len() implies #[trigger] v.free[k].contains(c)
        == w.free[k].contains(c) by {
        let b = Block { addr: c, order: k as nat };
        assert(model::free_blocks(v.free).contains(b) == v.free[k].contains(c));
        assert(model::free_blocks(w.free).contains(b) == w.free[k].contains(c));
    }
}

/// Giving a block back right after it was granted restores the heap: the grants, the
/// statistics, and every free list in its order.
pub proof fn law_alloc_then_dealloc(
    v: HeapView,
    min: nat,
    record: int,
    k: int,
    size: Option<nat>,
)
    requires
        v.inv(min, record),
        min <= k,
        v.fits(k),
        size matches Some(n) ==> n <= pow2(k as nat),
    ensures
        v.after_alloc(k, size).after_dealloc(v.pick(k)) == v,
{
    let i = model::first_fit(v.free, k);
    let w = v.after_alloc(k, size).after_dealloc(v.pick(k));
    v.lemma_after_alloc(k, size, min, record);
    model::lemma_first_fit(v.free, k);
    model::lemma_coalesce_split_off(v.free, v.live, k, i, v.lo, v.hi, min);
    assert(w.live =~= v.live);
    assert(w =~= v);
}

/// Giving back does not change the number of lists.
proof fn lemma_dealloc_length(v: HeapView, min: nat, record: int, a: int)
    requires
        v.inv(min, record),
        v.live.contains_key(a),
    ensures
        v.after_dealloc(a).free.len() == v.free.len(),
{
    model::lemma_take_back(v.free, v.live, a, v.lo, v.hi, min);
    model::lemma_coalesce(v.free, v.live.remove(a), block_at(v, a), v.lo, v.hi, min);
}

/// Two blocks can be given back in either order: the outcome is the same.
pub proof fn law_dealloc_commutes(v: HeapView, min: nat, record: int, a: int, b: int)
    requires
        v.inv(min, record),
        v.live.contains_key(a),
        v.live.contains_key(b),
        a != b,
    ensures
        ({
            let x = v.after_dealloc(a).after_dealloc(b);
            let y = v.after_dealloc(b).after_dealloc(a);
            &&& x.live == y.live
            &&& x.user == y.user
            &&& x.allocated == y.allocated
            &&& same_free(x, y)
            &&& forall|k: int, c: int|
                0 <= k < x.free.len() ==> #[trigger] x.free[k].contains(c) == y.free[k].contains(c)
            &&& forall|k: int|
                0 <= k < x.free.len() ==> (#[trigger] x.free[k]).len() == y.free[k].len()
        }),
{
    let x = v.after_dealloc(a).after_dealloc(b);
    let y = v.after_dealloc(b).after_dealloc(a);
    v.lemma_after_dealloc(a, min, record);
    v.lemma_after_dealloc(b, min, record);
    v.after_dealloc(a).lemma_after_dealloc(b, min, record);
    v.after_dealloc(b).lemma_after_dealloc(a, min, record);
    lemma_dealloc_length(v, min, record, a);
    lemma_dealloc_length(v, min, record, b);
    lemma_dealloc_length(v.after_dealloc(a), min, record, b);
    lemma_dealloc_length(v.after_dealloc(b), min, record, a);
    assert(x.live =~= y.live);
    law_free_determined_by_live(x, y, min, record);
    lemma_same_members(x, y);
}

/// A heap without live blocks is as good as new: its free blocks are those of the freshly
/// carved region, order by order, and nothing counts as used.
pub proof fn law_drained_is_fresh(v: HeapView, min: nat, start: int, size: int)
    requires
        0 <= start,
        0 <= size,
        v.inv(min, region::record_bytes()),
        v.live == Map::<int, Grant>::empty(),
        metadata_heap::carve(v.free.len(), min, start, size) matches Ok(fresh) && fresh.lo == v.lo
            && fresh.hi == v.hi,
    ensures
        v.user == 0,
        v.allocated == 0,
        same_free(v, metadata_heap::carve(v.free.len(), min, start, size)->Ok_0),
        ({
            let fresh = metadata_heap::carve(v.free.len(), min, start, size)->Ok_0;
            &&& forall|k: int, c: int|
                0 <= k < v.free.len() ==> #[trigger] v.free[k].contains(c)
                    == fresh.free[k].contains(c)
            &&& forall|k: int|
                0 <= k < v.free.len() ==> (#[trigger] v.free[k]).len() == fresh.free[k].len()
        }),
{
    let fresh = metadata_heap::carve(v.free.len(), min, start, size)->Ok_0;
    metadata_heap::lemma_carve(v.free.len(), min, start, size);
    law_free_determined_by_live(v, fresh, min, region::record_bytes());
    lemma_same_members(v, fresh);
}

/// A request is turned down only where no aligned run of its size is free: if all
/// addresses of an aligned block are free, the heap can grant a block of that order.
pub proof fn law_alloc_finds_free_run(v: HeapView, min: nat, record: int, b: Block)
    requires
        v.inv(min, record),
        b.aligned(),
        b.order < v.free.len(),
        forall|a: int| b.covers(a) ==> #[trigger] is_free_at(v, a),
    ensures
        v.fits(b.order as int),
{
    let s = model::free_blocks(v.free);
    lemma_free_packed(v, min, record);
    assert forall|a: int| b.covers(a) implies #[trigger] blocks::covered(s, a) by {
        assert(is_free_at(v, a));
    }
    blocks::lemma_in_one_member(s, (v.free.len() - 1) as nat, b);
    let t = choose|t: Block| s.contains(t) && #[trigger] t.contains(b);
    if t.order < b.order {
        lemma_pow2_strictly_increases(t.order, b.order);
    }
    model::lemma_first_fit(v.free, b.order as int);
    assert(v.free[t.order as int].contains(t.addr));
    assert(v.free[t.order as int].len() > 0);
}

/// A request is served from the least order that has a free block: the block comes from the
/// head of its list, and every free block of an order in between is too small.
pub proof fn law_alloc_takes_least_order(v: HeapView, min: nat, record: int, k: int)
    requires
        v.inv(min, record),
        min <= k,
        v.fits(k),
    ensures
        ({
            let i = model::first_fit(v.free, k);
            &&& k <= i < v.free.len()
            &&& v.free[i].len() > 0 && v.pick(k) == v.free[i][0]
            &&& forall|b: Block| #[trigger]
                model::free_blocks(v.free).contains(b) ==> b.order < k || b.order >= i
        }),
{
    let i = model::first_fit(v.free, k);
    model::lemma_first_fit(v.free, k);
    assert forall|b: Block| #[trigger] model::free_blocks(v.free).contains(b) implies b.order < k
        || b.order >= i by {
        if k <= b.order < i {
            assert(v.free[b.order as int].len() == 0);
        }
    }
}

/// Where a block has to be cut from a greater one, the next request of the same order gets
/// its buddy.
pub proof fn law_next_alloc_is_buddy(
    v: HeapView,
    min: nat,
    record: int,
    k: int,
    size: Option<nat>,
)
    requires
        v.inv(min, record),
        min <= k,
        v.fits(k),
        v.free[k].len() == 0,
        size matches Some(n) ==> n <= pow2(k as nat),
    ensures
        v.after_alloc(k, size).fits(k),
        v.after_alloc(k, size).pick(k) == blocks::buddy_addr(v.pick(k), k as nat),
        v.after_alloc(k, size).pick(k) == v.pick(k) + pow2(k as nat),
{
    let i = model::first_fit(v.free, k);
    let a = v.pick(k);
    let b = Block { addr: a, order: i as nat };
    model::lemma_first_fit(v.free, k);
    assert(v.free[i].contains(a));
    assert(model::free_blocks(v.free).contains(b));
    assert(model::all_blocks(v.free, v.live, Set::empty()).contains(b));
    bits::lemma_multiple_of_lower(a, (k + 1) as nat, i as nat);
}

/// A grant takes free addresses only, and exactly those of its block.
pub proof fn law_alloc_takes_free(
    v: HeapView,
    min: nat,
    record: int,
    k: int,
    size: Option<nat>,
    a: int,
)
    requires
        v.inv(min, record),
        min <= k,
        v.fits(k),
        size matches Some(n) ==> n <= pow2(k as nat),
    ensures
        v.pick(k) <= a < v.pick(k) + pow2(k as nat) ==> is_free_at(v, a),
        is_free_at(v.after_alloc(k, size), a) <==> is_free_at(v, a) && !(v.pick(k) <= a < v.pick(k)
            + pow2(k as nat)),
{
    let w = v.after_alloc(k, size);
    let b = Block { addr: v.pick(k), order: k as nat };
    v.lemma_after_alloc(k, size, min, record);
    law_free_or_live(v, min, record, a);
    law_free_or_live(w, min, record, a);
    let s = model::live_blocks(v.live);
    let t = model::live_blocks(w.live);
    assert(t =~= s.insert(b));
    lemma_covered_insert(s, b, a);
    let all = model::all_blocks(w.free, w.live, Set::empty());
    assert(all.contains(b));
    if b.covers(a) && is_live_at(v, a) {
        let c = choose|c: Block| s.contains(c) && #[trigger] c.covers(a);
        assert(all.contains(c));
        assert(c == b);
    }
}

/// What one more block covers.
proof fn lemma_covered_insert(s: Set<Block>, b: Block, a: int)
    ensures
        blocks::covered(s.insert(b), a) <==> blocks::covered(s, a) || b.covers(a),
{
    if blocks::covered(s, a) {
        let c = choose|c: Block| s.contains(c) && #[trigger] c.covers(a);
        assert(s.insert(b).contains(c) && c.covers(a));
    }
    if b.covers(a) {
        assert(s.insert(b).contains(b) && b.covers(a));
    }
    if blocks::covered(s.insert(b), a) {
        let c = choose|c: Block| s.insert(b).contains(c) && #[trigger] c.covers(a);
        if c != b {
            assert(s.contains(c) && c.covers(a));
        }
    }
}

/// Giving a block back frees its addresses, and no others.
pub proof fn law_dealloc_frees(v: HeapView, min: nat, record: int, x: int, a: int)
    requires
        v.inv(min, record),
        v.live.contains_key(x),
    ensures
        is_free_at(v.after_dealloc(x), a) <==> is_free_at(v, a) || block_at(v, x).covers(a),
{
    let w = v.after_dealloc(x);
    let b = block_at(v, x);
    v.lemma_after_dealloc(x, min, record);
    law_free_or_live(v, min, record, a);
    law_free_or_live(w, min, record, a);
    let s = model::live_blocks(w.live);
    let t = model::live_blocks(v.live);
    assert(t =~= s.insert(b));
    lemma_covered_insert(s, b, a);
    let all = model::all_blocks(v.free, v.live, Set::empty());
    assert(all.contains(b));
    if b.covers(a) && is_live_at(w, a) {
        let c = choose|c: Block| s.contains(c) && #[trigger] c.covers(a);
        assert(t.contains(c));
        assert(all.contains(c));
        assert(c == b);
    }
}

/// Two live buddies that are given back merge: a block of the next order can then be
/// granted, where there is such an order.
pub proof fn law_buddies_merge(v: HeapView, min: nat, record: int, a: int)
    requires
        v.inv(min, record),
        v.live.contains_key(a),
        v.live.contains_key(block_at(v, a).buddy().addr),
        v.live[block_at(v, a).buddy().addr].order == v.live[a].order,
        v.live[a].order + 1 < v.free.len(),
    ensures
        v.after_dealloc(a).after_dealloc(block_at(v, a).buddy().addr).fits(
            v.live[a].order as int + 1,
        ),
{
    let b = block_at(v, a);
    let c = b.buddy().addr;
    law_live_block_in_region(v, min, record, a);
    blocks::lemma_buddies(b);
    blocks::lemma_halves(b.parent());
    let u = v.after_dealloc(a);
    let w = u.after_dealloc(c);
    v.lemma_after_dealloc(a, min, record);
    u.lemma_after_dealloc(c, min, record);
    lemma_dealloc_length(v, min, record, a);
    lemma_dealloc_length(u, min, record, c);
    assert forall|x: int| b.parent().covers(x) implies #[trigger] is_free_at(w, x) by {
        law_dealloc_frees(v, min, record, a, x);
        law_dealloc_frees(u, min, record, c, x);
    }
    law_alloc_finds_free_run(w, min, record, b.parent());
}

/// No two free buddies are left unmerged below the greatest order.
pub proof fn law_free_blocks_merged(v: HeapView, min: nat, record: int, b: Block)
    requires
        v.inv(min, record),
        b.order + 1 < v.free.len(),
        model::free_blocks(v.free).contains(b),
    ensures
        !model::free_blocks(v.free).contains(b.buddy()),
{
}

/// Unit indices and unit addresses undo each other: a unit starts in the data region at a
/// multiple of its size and is found again by its address, and an address of the data region
/// lies in the unit that starts at the multiple below it.
pub proof fn law_units_and_addresses(v: HeapView, min: nat, record: int, x: int, a: int)
    requires
        v.inv(min, record),
    ensures
        ({
            let unit = pow2(min) as int;
            let n = v.units(min);
            &&& v.total == n * unit
            &&& 0 <= x < n ==> {
                &&& v.lo <= v.unit_addr(min, x) && v.unit_addr(min, x) + unit <= v.hi
                &&& v.unit_addr(min, x) % unit == 0
                &&& v.unit_index(min, v.unit_addr(min, x)) == x
            }
            &&& v.lo <= a < v.hi ==> {
                &&& 0 <= v.unit_index(min, a) < n
                &&& v.unit_addr(min, v.unit_index(min, a)) == a - a % unit
                &&& a % unit == 0 ==> v.unit_addr(min, v.unit_index(min, a)) == a
            }
        }),
{
    let unit = pow2(min) as int;
    let n = v.units(min);
    lemma_pow2_pos(min);
    vstd::arithmetic::div_mod::lemma_fundamental_div_mod(v.total, unit);
    vstd::arithmetic::mul::lemma_mul_is_commutative(n, unit);
    if v.lo < v.hi {
        lemma_region_of_units(v, min, record);
        bits::lemma_multiples_add(v.hi, v.lo, unit);
    }
    if 0 <= x < n {
        assert(0 <= x * unit && x * unit + unit <= n * unit) by (nonlinear_arith)
            requires
                0 <= x <= n - 1,
                unit > 0,
        ;
        vstd::arithmetic::div_mod::lemma_mod_multiples_basic(x, unit);
        bits::lemma_multiples_add(v.lo, x * unit, unit);
        vstd::arithmetic::div_mod::lemma_div_by_multiple(x, unit);
    }
    if v.lo <= a < v.hi {
        let d = a - v.lo;
        let q = d / unit;
        vstd::arithmetic::div_mod::lemma_fundamental_div_mod(d, unit);
        vstd::arithmetic::mul::lemma_mul_is_commutative(q, unit);
        assert(0 <= q < n) by (nonlinear_arith)
            requires
                0 <= d < n * unit,
                d == q * unit + d % unit,
                0 <= d % unit < unit,
                unit > 0,
        ;
        vstd::arithmetic::div_mod::lemma_mod_multiples_basic(q, unit);
        bits::lemma_multiples_add(v.lo, q * unit, unit);
        let start = v.unit_addr(min, q);
        bits::lemma_round_down(a, unit);
        bits::lemma_multiples_apart(start, bits::round_down(a, unit), unit);
        bits::lemma_multiples_apart(bits::round_down(a, unit), start, unit);
    }
}

/// A data region that is not empty starts and ends at multiples of a unit.
proof fn lemma_region_of_units(v: HeapView, min: nat, record: int)
    requires
        v.inv(min, record),
        v.lo < v.hi,
    ensures
        v.lo % (pow2(min) as int) == 0,
        v.hi % (pow2(min) as int) == 0,
{
    let all = model::all_blocks(v.free, v.live, Set::empty());
    assert(blocks::covered(all, v.lo));
    let b = choose|b: Block| all.contains(b) && #[trigger] b.covers(v.lo);
    assert(b.addr == v.lo);
    bits::lemma_multiple_of_lower(b.addr, min, b.order);
    assert(blocks::covered(all, v.hi - 1));
    let c = choose|c: Block| all.contains(c) && #[trigger] c.covers(v.hi - 1);
    assert(c.end() == v.hi);
    lemma_pow2_pos(min);
    bits::lemma_multiple_of_lower(c.addr, min, c.order);
    bits::lemma_multiples_add(c.addr, pow2(c.order) as int, pow2(min) as int);
}

/// The order that serves a request covers its size, its alignment and a machine word, is not
/// below `min`, and is the least such order.
pub proof fn law_request_order_is_least(layout: Layout, min: nat, k: nat)
    ensures
        ({
            let order = metadata_heap::request_order(layout, min);
            &&& layout.size() <= pow2(order)
            &&& layout.align() <= pow2(order)
            &&& bits::word_bytes() <= pow2(order)
            &&& min <= order
            &&& min <= k < order ==> pow2(k) < metadata_heap::request_bytes(layout)
        }),
{
    let order = metadata_heap::request_order(layout, min);
    let bytes = metadata_heap::request_bytes(layout);
    bits::lemma_order_covering(bytes);
    bits::lemma_pow2_monotone(bits::order_covering(bytes), order);
    bits::lemma_order_covering_exceeds(bytes, k);
}

/// The metadata records come first in the region and the data region behind them; the
/// records have room for one per unit, and the data region is as large as can be.
pub proof fn law_carve_layout(orders: nat, min: nat, start: int, size: int, n: int)
    requires
        0 <= start,
        0 <= size,
        metadata_heap::carve(orders, min, start, size) is Ok,
    ensures
        ({
            let v = metadata_heap::carve(orders, min, start, size)->Ok_0;
            let units = v.total / (pow2(min) as int);
            &&& start <= v.table_start < v.table_end <= v.lo < v.hi <= start + size
            &&& v.total == units * pow2(min)
            &&& v.table_end - v.table_start == units * region::record_bytes()
            &&& n > units ==> !region::room_for(start, size, min, n)
        }),
{
    let v = metadata_heap::carve(orders, min, start, size)->Ok_0;
    let most = region::most_units(start, size, min, size as nat);
    metadata_heap::lemma_carve(orders, min, start, size);
    lemma_pow2_pos(min);
    vstd::arithmetic::div_mod::lemma_div_by_multiple(most as int, pow2(min) as int);
    if n > most && region::room_for(start, size, min, n) {
        region::lemma_room_bound(start, size, min, n);
        bits::lemma_word_limit();
        let each = region::record_bytes() + pow2(min);
        assert(n <= n * each) by (nonlinear_arith)
            requires
                n >= 0,
                each >= 1,
        ;
        region::lemma_most_units_is_most(start, size, min, size as nat, n);
    }
}

} // verus!
