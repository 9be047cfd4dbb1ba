//! What each operation of the frame allocator does, in plain arithmetic.
//!
//! The statements speak of frame numbers and powers of two alone, so that they can be read
//! without the definitions that the contracts are stated with.

use crate::bits;
use crate::blocks;
use crate::blocks::Block;
use crate::frame_laws;
use crate::frame_model;
use crate::frame_model::FrameView;
use crate::heap_rules;
use vstd::arithmetic::power2::*;
use vstd::prelude::*;

verus! {

/// The blocks of an allocator, free or taken, start at multiples of their size, have orders
/// below `orders`, and no two of them share a frame.
pub proof fn law_blocks_apart(v: FrameView, orders: nat, b: Block, c: Block)
    requires
        v.inv(orders),
        v.free.contains(b) || (v.live.contains_key(b.addr) && v.live[b.addr] == b.order),
        v.free.contains(c) || (v.live.contains_key(c.addr) && v.live[c.addr] == c.order),
    ensures
        b.addr % (pow2(b.order) as int) == 0,
        b.order < orders,
        0 <= b.addr,
        b != c ==> b.addr + pow2(b.order) <= c.addr || c.addr + pow2(c.order) <= b.addr,
        v.free.contains(b) ==> !v.live.contains_key(b.addr),
{
    let all = v.blocks();
    assert(all.contains(b) && all.contains(c));
    if v.free.contains(b) && v.live.contains_key(b.addr) {
        let d = Block { addr: b.addr, order: v.live[b.addr] };
        assert(frame_model::taken(v.live).contains(d));
        assert(all.contains(d));
        lemma_pow2_pos(b.order);
        lemma_pow2_pos(d.order);
    }
}

/// What the sets of blocks of an allocator hold.
pub proof fn law_block_sets(v: FrameView, b: Block)
    ensures
        frame_model::taken(v.live).contains(b) <==> v.live.contains_key(b.addr) && v.live[b.addr]
            == b.order,
        v.blocks().contains(b) <==> v.free.contains(b) || (v.live.contains_key(b.addr)
            && v.live[b.addr] == b.order),
{
}

/// Frames that no free block and no run in the hands of a caller holds can be added.
pub proof fn law_clear(v: FrameView, start: int, end: int)
    requires
        forall|b: Block| #[trigger]
            v.free.contains(b) ==> b.addr + pow2(b.order) <= start || end <= b.addr,
        forall|a: int| #[trigger]
            v.live.contains_key(a) ==> a + pow2(v.live[a]) <= start || end <= a,
    ensures
        v.clear_of(start, end),
{
    assert forall|b: Block| #[trigger] v.blocks().contains(b) implies b.end() <= start || end
        <= b.addr by {
        if !v.free.contains(b) {
            assert(v.live.contains_key(b.addr));
        }
    }
}

/// The blocks that `[start, end)` is added as: each lies in the range, starts at a multiple of
/// its size, and could not be twice as large, for want of orders, of alignment or of room;
/// each frame is in one of them, and in no second one.
pub proof fn law_added_blocks(start: int, end: int, top: nat, a: int, b: Block, c: Block)
    requires
        start <= end,
    ensures
        blocks::greedy(start, end, top).contains(b) ==> {
            &&& start <= b.addr && b.addr + pow2(b.order) <= end
            &&& b.addr % (pow2(b.order) as int) == 0
            &&& b.order <= top
            &&& b.order == top || b.addr % (pow2(b.order + 1) as int) != 0 || b.addr + pow2(
                b.order + 1,
            ) > end
        },
        start <= a < end ==> exists|x: Block| #[trigger]
            blocks::greedy(start, end, top).contains(x) && x.addr <= a && a < x.addr + pow2(
                x.order,
            ),
        blocks::greedy(start, end, top).contains(b) && blocks::greedy(start, end, top).contains(c)
            && b != c ==> b.addr + pow2(b.order) <= c.addr || c.addr + pow2(c.order) <= b.addr,
{
    let new = blocks::greedy(start, end, top);
    blocks::lemma_greedy(start, end, top);
    if new.contains(b) {
        lemma_pow2_pos(b.order);
        blocks::lemma_fitting_order(b.addr, end - b.addr, top);
        if b.order < top {
            assert(pow2(b.order + 1) <= end - b.addr ==> b.addr % (pow2(b.order + 1) as int) != 0);
        }
    }
    if start <= a < end {
        assert(blocks::covered(new, a));
        let x = choose|x: Block| new.contains(x) && #[trigger] x.covers(a);
        assert(new.contains(x));
    }
}

/// A request is served exactly where some free block is large enough. It is served from the
/// least order that has one, and there from the first block.
pub proof fn law_serve(v: FrameView, orders: nat, order: nat, c: Block)
    requires
        v.inv(orders),
    ensures
        v.free.contains(c) && c.order >= order ==> v.can_serve(order),
        v.can_serve(order) ==> {
            let b = v.next(order);
            &&& v.free.contains(b)
            &&& b.order >= order
            &&& v.free.contains(c) && c.order >= order ==> b.order <= c.order
            &&& v.free.contains(c) && c.order == b.order ==> b.addr <= c.addr
        },
{
    if v.free.contains(c) && c.order >= order {
        frame_laws::law_served_if_large_enough(v, orders, order, c);
    }
    if v.can_serve(order) {
        let b = v.next(order);
        assert(frame_model::serves(v.free, order, b));
    }
}

/// A given run can be taken exactly where one free block, of whatever order, has all its
/// frames; that is the block it is cut from.
pub proof fn law_take_at(v: FrameView, orders: nat, part: Block, b: Block)
    requires
        v.inv(orders),
    ensures
        v.free.contains(b) && b.addr <= part.addr && part.addr + pow2(part.order) <= b.addr + pow2(
            b.order,
        ) ==> v.can_take(part) && v.holder(part) == b,
        v.can_take(part) ==> {
            let x = v.holder(part);
            &&& v.free.contains(x)
            &&& x.addr <= part.addr && part.addr + pow2(part.order) <= x.addr + pow2(x.order)
        },
{
    if v.free.contains(b) && b.addr <= part.addr && part.addr + pow2(part.order) <= b.addr + pow2(
        b.order,
    ) {
        if b.order < part.order {
            lemma_pow2_strictly_increases(b.order, part.order);
        }
        assert(frame_model::holds(v.free, part, b));
        v.lemma_holder(part, b, orders);
    }
    if v.can_take(part) {
        assert(frame_model::holds(v.free, part, v.holder(part)));
    }
}

/// Cutting `part` out of the free block `whole`: `whole` is free no more; of each order from
/// that of `part` up to that of `whole`, the block beside the one that holds the start of
/// `part` becomes free, where both make up a block of the next order; no other block changes.
/// The run is recorded with its order.
pub proof fn law_cut(v: FrameView, whole: Block, part: Block, x: Block)
    ensures
        ({
            let w = v.after_take(whole, part);
            &&& w.free.contains(x) <==> (v.free.contains(x) && x != whole) || {
                &&& part.order <= x.order < whole.order
                &&& x.addr % (pow2(x.order) as int) == 0
                &&& x.addr / (pow2(x.order + 1) as int) == part.addr / (pow2(x.order + 1) as int)
                &&& x.addr / (pow2(x.order) as int) != part.addr / (pow2(x.order) as int)
            }
            &&& w.live == v.live.insert(part.addr, part.order)
        }),
{
    lemma_pow2_pos(x.order);
    bits::lemma_round_down(part.addr, pow2(x.order) as int);
    heap_rules::lemma_twin(part.addr, x.addr, x.order);
}

/// Giving back the run at `a`, where the block grows to order `m`: the other half `twins[j]`
/// of the block of `2^(j + 1)` frames that holds `a` is free for each order from that of the
/// run up to `m`, and then either no order is left or it is not. The halves that were free
/// are so no more, the grown block is, and no other block changes.
pub proof fn law_give_back_blocks(
    v: FrameView,
    orders: nat,
    a: int,
    m: nat,
    twins: Seq<int>,
    x: Block,
)
    requires
        v.live.contains_key(a),
        v.live[a] <= m < orders,
        a % (pow2(v.live[a]) as int) == 0,
        twins.len() > m,
        forall|j: int|
            v.live[a] <= j <= m ==> #[trigger] twins[j] % (pow2(j as nat) as int) == 0 && twins[j]
                / (pow2((j + 1) as nat) as int) == a / (pow2((j + 1) as nat) as int) && twins[j] / (
            pow2(j as nat) as int) != a / (pow2(j as nat) as int),
        forall|j: int|
            v.live[a] <= j < m ==> v.free.contains(
                Block { addr: #[trigger] twins[j], order: j as nat },
            ),
        m + 1 == orders || !v.free.contains(Block { addr: twins[m as int], order: m }),
    ensures
        ({
            let w = v.after_dealloc(a, orders);
            &&& w.free.contains(x) <==> (x.order == m && x.addr == a - a % (pow2(m) as int)) || (
            v.free.contains(x) && !(v.live[a] <= x.order < m && x.addr == twins[x.order as int]))
            &&& w.live == v.live.remove(a)
        }),
{
    let k = v.live[a];
    assert forall|j: int| k <= j <= m implies #[trigger] twins[j] == blocks::buddy_addr(
        a - a % (pow2(j as nat) as int),
        j as nat,
    ) by {
        heap_rules::lemma_twin(a, twins[j], j as nat);
    }
    lemma_joined_to(v.free, orders, a, k, m, twins, x);
}

/// What `joined` does from order `k` on.
proof fn lemma_joined_to(
    free: Set<Block>,
    orders: nat,
    a: int,
    k: nat,
    m: nat,
    twins: Seq<int>,
    x: Block,
)
    requires
        k <= m < orders,
        forall|j: int|
            k <= j <= m ==> #[trigger] twins[j] == blocks::buddy_addr(
                a - a % (pow2(j as nat) as int),
                j as nat,
            ),
        forall|j: int|
            k <= j < m ==> free.contains(Block { addr: #[trigger] twins[j], order: j as nat }),
        m + 1 == orders || !free.contains(Block { addr: twins[m as int], order: m }),
    ensures
        frame_model::joined(
            free,
            Block { addr: a - a % (pow2(k) as int), order: k },
            orders,
        ).contains(x) <==> (x.order == m && x.addr == a - a % (pow2(m) as int)) || (free.contains(x)
            && !(k <= x.order < m && x.addr == twins[x.order as int])),
    decreases m - k,
{
    let b = Block { addr: a - a % (pow2(k) as int), order: k };
    assert(twins[k as int] == b.buddy().addr);
    if k < m {
        let unit = Block { addr: a, order: 0 };
        bits::lemma_pow2_step(0);
        lemma_pow2_pos(k);
        lemma_pow2_pos(k + 1);
        frame_model::lemma_ancestor(unit, k);
        bits::lemma_round_down(a, pow2(k) as int);
        bits::lemma_round_down(a, pow2(k + 1) as int);
        lemma_joined_to(free.remove(b.buddy()), orders, a, k + 1, m, twins, x);
    }
}

} // verus!
