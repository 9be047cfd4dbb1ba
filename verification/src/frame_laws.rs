//! What holds of the frame allocator as a whole, whatever the calls.
//!
//! The laws speak of [`FrameView`], the model that the contracts of
//! [`FrameAllocator`](crate::frame::FrameAllocator) are stated over. An allocator that
//! satisfies `wf` has a model that satisfies `inv`.

use crate::blocks;
use crate::blocks::Block;
use crate::frame_model;
use crate::frame_model::FrameView;
use vstd::arithmetic::power2::*;
use vstd::prelude::*;

verus! {

/// The frame belongs to a free block.
pub open spec fn is_free(v: FrameView, a: int) -> bool {
    blocks::covered(v.free, a)
}

/// The frame belongs to a run in the hands of a caller.
pub open spec fn is_taken(v: FrameView, a: int) -> bool {
    blocks::covered(frame_model::taken(v.live), a)
}

/// The run that starts at `a`.
pub open spec fn run_at(v: FrameView, a: int) -> Block {
    Block { addr: a, order: v.live[a] }
}

/// No two runs in the hands of callers share a frame, and each starts at a multiple of its
/// length.
pub proof fn law_runs_disjoint(v: FrameView, orders: nat, a: int, b: int)
    requires
        v.inv(orders),
        v.live.contains_key(a),
        v.live.contains_key(b),
        a != b,
    ensures
        run_at(v, a).disjoint(run_at(v, b)),
        run_at(v, a).aligned(),
{
    assert(v.blocks().contains(run_at(v, a)));
    assert(v.blocks().contains(run_at(v, b)));
}

/// No frame is both free and taken, and a frame that is neither was never added.
pub proof fn law_free_or_taken(v: FrameView, orders: nat, a: int)
    requires
        v.inv(orders),
    ensures
        blocks::covered(v.blocks(), a) <==> is_free(v, a) || is_taken(v, a),
        !(is_free(v, a) && is_taken(v, a)),
{
    let all = v.blocks();
    let taken = frame_model::taken(v.live);
    if blocks::covered(all, a) {
        let b = choose|b: Block| all.contains(b) && #[trigger] b.covers(a);
        if v.free.contains(b) {
            assert(v.free.contains(b) && b.covers(a));
        } else {
            assert(taken.contains(b) && b.covers(a));
        }
    }
    if is_free(v, a) {
        let b = choose|b: Block| v.free.contains(b) && #[trigger] b.covers(a);
        assert(all.contains(b) && b.covers(a));
        if is_taken(v, a) {
            let c = choose|c: Block| taken.contains(c) && #[trigger] c.covers(a);
            assert(all.contains(c));
            assert(b == c);
        }
    }
    if is_taken(v, a) {
        let c = choose|c: Block| taken.contains(c) && #[trigger] c.covers(a);
        assert(all.contains(c) && c.covers(a));
    }
}

/// Taking a run makes exactly its frames taken, all of which were free.
pub proof fn law_take(v: FrameView, orders: nat, whole: Block, part: Block, a: int)
    requires
        v.inv(orders),
        v.free.contains(whole),
        part.aligned(),
        part.order <= whole.order,
        whole.contains(part),
    ensures
        part.covers(a) ==> is_free(v, a),
        is_free(v.after_take(whole, part), a) <==> is_free(v, a) && !part.covers(a),
        is_taken(v.after_take(whole, part), a) <==> is_taken(v, a) || part.covers(a),
{
    let w = v.after_take(whole, part);
    v.lemma_after_take(whole, part, orders);
    law_free_or_taken(v, orders, a);
    law_free_or_taken(w, orders, a);
    assert(blocks::covered(w.blocks(), a) == blocks::covered(v.blocks(), a));
    if part.covers(a) {
        assert(v.free.contains(whole) && whole.covers(a));
    }
    lemma_taken_insert(v, part, a);
}

/// What one more run covers.
proof fn lemma_taken_insert(v: FrameView, b: Block, a: int)
    requires
        !v.live.contains_key(b.addr),
    ensures
        blocks::covered(frame_model::taken(v.live.insert(b.addr, b.order)), a) <==> is_taken(v, a)
            || b.covers(a),
{
    let s = frame_model::taken(v.live);
    let t = frame_model::taken(v.live.insert(b.addr, b.order));
    assert(t =~= s.insert(b));
    if is_taken(v, a) {
        let c = choose|c: Block| s.contains(c) && #[trigger] c.covers(a);
        assert(t.contains(c) && c.covers(a));
    }
    if b.covers(a) {
        assert(t.contains(b) && b.covers(a));
    }
    if blocks::covered(t, a) {
        let c = choose|c: Block| t.contains(c) && #[trigger] c.covers(a);
        if c != b {
            assert(s.contains(c) && c.covers(a));
        }
    }
}

/// Giving a run back makes exactly its frames free.
pub proof fn law_give_back(v: FrameView, orders: nat, x: int, a: int)
    requires
        v.inv(orders),
        v.live.contains_key(x),
    ensures
        is_free(v.after_dealloc(x, orders), a) <==> is_free(v, a) || run_at(v, x).covers(a),
        is_taken(v.after_dealloc(x, orders), a) <==> is_taken(v, a) && !run_at(v, x).covers(a),
{
    let w = v.after_dealloc(x, orders);
    let b = run_at(v, x);
    v.lemma_after_dealloc(x, orders);
    law_free_or_taken(v, orders, a);
    law_free_or_taken(w, orders, a);
    assert(blocks::covered(w.blocks(), a) == blocks::covered(v.blocks(), a));
    lemma_taken_insert(w, b, a);
    assert(w.live.insert(x, b.order) =~= v.live);
    assert(v.blocks().contains(b));
    if b.covers(a) && is_taken(w, a) {
        let c = choose|c: Block| frame_model::taken(w.live).contains(c) && #[trigger] c.covers(a);
        assert(v.blocks().contains(c));
        assert(c == b);
    }
}

/// Giving a run back right after it was taken restores which frames are free, and which
/// are in the hands of callers.
pub proof fn law_take_then_give_back(
    v: FrameView,
    orders: nat,
    whole: Block,
    part: Block,
    a: int,
)
    requires
        v.inv(orders),
        v.free.contains(whole),
        part.aligned(),
        part.order <= whole.order,
        whole.contains(part),
    ensures
        ({
            let w = v.after_take(whole, part).after_dealloc(part.addr, orders);
            &&& w.inv(orders)
            &&& w.live == v.live
            &&& is_free(w, a) == is_free(v, a)
        }),
{
    let u = v.after_take(whole, part);
    let w = u.after_dealloc(part.addr, orders);
    v.lemma_after_take(whole, part, orders);
    u.lemma_after_dealloc(part.addr, orders);
    law_take(v, orders, whole, part, a);
    law_give_back(u, orders, part.addr, a);
    assert(w.live =~= v.live);
}

/// Giving a run back right after it was cut out of a block merges the block again: the
/// allocator is as it was, unless the block has a free buddy that it merges with as well.
pub proof fn law_take_then_give_back_restores(
    v: FrameView,
    orders: nat,
    whole: Block,
    part: Block,
)
    requires
        v.inv(orders),
        v.free.contains(whole),
        part.aligned(),
        part.order <= whole.order,
        whole.contains(part),
        whole.order + 1 < orders ==> !v.free.contains(whole.buddy()),
    ensures
        v.after_take(whole, part).after_dealloc(part.addr, orders) == v,
{
    let w = v.after_take(whole, part).after_dealloc(part.addr, orders);
    v.lemma_after_take(whole, part, orders);
    frame_model::lemma_ancestor(part, part.order);
    frame_model::lemma_joined_siblings(v, whole, part, part.order, orders);
    assert(w.live =~= v.live);
    assert(w =~= v);
}

/// What serves a request holds it: the run that a request takes starts at the first frame of
/// a free block large enough, and so at a multiple of its length.
pub proof fn law_next_holds(v: FrameView, orders: nat, order: nat)
    requires
        v.inv(orders),
        v.can_serve(order),
    ensures
        ({
            let whole = v.next(order);
            let part = Block { addr: whole.addr, order };
            &&& v.free.contains(whole)
            &&& part.aligned()
            &&& part.order <= whole.order < orders
            &&& whole.contains(part)
        }),
{
    let whole = v.next(order);
    assert(frame_model::serves(v.free, order, whole));
    assert(v.blocks().contains(whole));
    crate::bits::lemma_multiple_of_lower(whole.addr, order, whole.order);
    crate::bits::lemma_pow2_monotone(order, whole.order);
}

/// A request is turned down only where every free block is too small.
pub proof fn law_served_if_large_enough(v: FrameView, orders: nat, order: nat, b: Block)
    requires
        v.inv(orders),
        v.free.contains(b),
        b.order >= order,
    ensures
        v.can_serve(order),
    decreases b.order, b.addr,
{
    assert(v.blocks().contains(b));
    if !frame_model::serves(v.free, order, b) {
        let c = choose|c: Block| #[trigger]
            v.free.contains(c) && c.order >= order && !(b.order < c.order || (b.order == c.order
                && b.addr <= c.addr));
        assert(v.blocks().contains(c));
        law_served_if_large_enough(v, orders, order, c);
    }
}

} // verus!
