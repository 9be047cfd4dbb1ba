//! The mathematical model of a frame allocator: a set of free blocks, and the runs of
//! frames in the hands of callers.

use crate::bits;
use crate::blocks;
use crate::blocks::Block;
use vstd::arithmetic::power2::*;
use vstd::prelude::*;

verus! {

/// What a frame allocator holds.
#[verifier::ext_equal]
pub struct FrameView {
    /// The free blocks.
    pub free: Set<Block>,
    /// The order of each run in the hands of a caller, by its first frame.
    pub live: Map<int, nat>,
}

/// The blocks in the hands of callers.
pub open spec fn taken(live: Map<int, nat>) -> Set<Block> {
    Set::new(|b: Block| live.contains_key(b.addr) && live[b.addr] == b.order)
}

/// All blocks there are: free, taken, or in hand.
pub open spec fn all_frames(free: Set<Block>, live: Map<int, nat>, hand: Set<Block>) -> Set<Block> {
    free.union(taken(live)).union(hand)
}

/// The free blocks, the taken ones and the block in hand (if any) are all different, share
/// no frame, and have orders below `orders`.
pub open spec fn sound(
    free: Set<Block>,
    live: Map<int, nat>,
    hand: Set<Block>,
    orders: nat,
) -> bool {
    &&& blocks::packed(all_frames(free, live, hand))
    &&& forall|b: Block| #[trigger]
        free.contains(b) ==> !taken(live).contains(b) && !hand.contains(b)
    &&& forall|b: Block| #[trigger] taken(live).contains(b) ==> !hand.contains(b)
    &&& forall|b: Block| #[trigger]
        all_frames(free, live, hand).contains(b) ==> b.order < orders && 0 <= b.addr && b.end()
            <= usize::MAX
}

/// The block of order `order` that holds the first address of `part`.
pub open spec fn ancestor(part: Block, order: nat) -> Block {
    Block { addr: bits::round_down(part.addr, pow2(order) as int), order }
}

/// What is left when a block of order `to` is halved down to the block of order `from` that
/// holds the start of `part`: of each order, the half without it.
pub open spec fn siblings(part: Block, from: nat, to: nat) -> Set<Block> {
    Set::new(|b: Block| from <= b.order < to && b == ancestor(part, b.order).buddy())
}

/// `b` is the block that a request of order `order` takes: of those large enough, one of the
/// least order, and of these the first.
pub open spec fn serves(free: Set<Block>, order: nat, b: Block) -> bool {
    &&& free.contains(b)
    &&& b.order >= order
    &&& forall|c: Block| #[trigger]
        free.contains(c) && c.order >= order ==> b.order < c.order || (b.order == c.order && b.addr
            <= c.addr)
}

/// `b` is the free block that holds the whole of `part`.
pub open spec fn holds(free: Set<Block>, part: Block, b: Block) -> bool {
    free.contains(b) && b.order >= part.order && b.contains(part)
}

/// The free blocks once `b` is given back: it takes in its buddy as long as that is free and
/// an order above exists.
pub open spec fn joined(free: Set<Block>, b: Block, orders: nat) -> Set<Block>
    decreases orders - b.order,
{
    if b.order + 1 < orders && free.contains(b.buddy()) {
        joined(free.remove(b.buddy()), b.parent(), orders)
    } else {
        free.insert(b)
    }
}

impl FrameView {
    /// All blocks, free and taken.
    pub open spec fn blocks(self) -> Set<Block> {
        all_frames(self.free, self.live, Set::empty())
    }

    /// What always holds of an allocator with `orders` orders.
    pub open spec fn inv(self, orders: nat) -> bool {
        sound(self.free, self.live, Set::empty(), orders)
    }

    /// Some free block is large enough for a request of the order.
    pub open spec fn can_serve(self, order: nat) -> bool {
        exists|b: Block| serves(self.free, order, b)
    }

    /// The block that a request of the order takes.
    pub open spec fn next(self, order: nat) -> Block {
        choose|b: Block| serves(self.free, order, b)
    }

    /// Some free block holds the whole of `part`.
    pub open spec fn can_take(self, part: Block) -> bool {
        exists|b: Block| holds(self.free, part, b)
    }

    /// The free block that holds the whole of `part`.
    pub open spec fn holder(self, part: Block) -> Block {
        choose|b: Block| holds(self.free, part, b)
    }

    /// The allocator once `part` is cut out of the free block `whole` and handed over.
    pub open spec fn after_take(self, whole: Block, part: Block) -> FrameView {
        FrameView {
            free: self.free.remove(whole).union(siblings(part, part.order, whole.order)),
            live: self.live.insert(part.addr, part.order),
        }
    }

    /// The allocator once the run that starts at `a` is given back.
    pub open spec fn after_dealloc(self, a: int, orders: nat) -> FrameView {
        FrameView {
            free: joined(self.free, Block { addr: a, order: self.live[a] }, orders),
            live: self.live.remove(a),
        }
    }

    /// No free or taken block has a frame in `[start, end)`.
    pub open spec fn clear_of(self, start: int, end: int) -> bool {
        forall|b: Block| #[trigger]
            self.blocks().contains(b) ==> b.end() <= start || end <= b.addr
    }
}

/// The two sets of blocks cover the same frames.
pub open spec fn same_cover(s: Set<Block>, t: Set<Block>) -> bool {
    forall|a: int| #[trigger] blocks::covered(s, a) == blocks::covered(t, a)
}

/// The set that holds one block.
pub open spec fn only(b: Block) -> Set<Block> {
    Set::empty().insert(b)
}

/// Going up one order from an ancestor gives the next ancestor.
pub proof fn lemma_ancestor(part: Block, order: nat)
    requires
        part.aligned(),
    ensures
        ancestor(part, order).aligned(),
        ancestor(part, order + 1) == ancestor(part, order).parent(),
        order == part.order ==> ancestor(part, order) == part,
        ancestor(part, order).addr <= part.addr < ancestor(part, order).end(),
{
    let h = pow2(order) as int;
    bits::lemma_pow2_step(order);
    bits::lemma_round_down(part.addr, h);
    bits::lemma_round_down(part.addr, 2 * h);
    let b = ancestor(part, order);
    let p = b.parent();
    blocks::lemma_buddies(b);
    blocks::lemma_halves(p);
    let q = ancestor(part, order + 1);
    assert(!q.disjoint(p));
    blocks::lemma_nested(q, p);
}

/// An aligned block that holds `part` is its ancestor.
pub proof fn lemma_holder_is_ancestor(part: Block, b: Block)
    requires
        part.aligned(),
        b.aligned(),
        b.contains(part),
    ensures
        b == ancestor(part, b.order),
{
    lemma_pow2_pos(part.order);
    lemma_ancestor(part, b.order);
    blocks::lemma_nested(b, ancestor(part, b.order));
}

/// One more sibling per order.
pub proof fn lemma_siblings_step(part: Block, from: nat, to: nat)
    ensures
        from >= to ==> siblings(part, from, to) == Set::<Block>::empty(),
        from < to ==> siblings(part, from, to) == siblings(part, from + 1, to).insert(
            ancestor(part, from).buddy(),
        ),
{
    if from >= to {
        assert(siblings(part, from, to) =~= Set::<Block>::empty());
    } else {
        assert(siblings(part, from, to) =~= siblings(part, from + 1, to).insert(
            ancestor(part, from).buddy(),
        ));
    }
}

/// No free and no taken block starts in the block in hand.
pub proof fn lemma_in_hand(
    free: Set<Block>,
    live: Map<int, nat>,
    b: Block,
    a: int,
    orders: nat,
)
    requires
        sound(free, live, only(b), orders),
        b.covers(a),
    ensures
        forall|c: Block| #[trigger] free.contains(c) ==> c.addr != a,
        !live.contains_key(a),
{
    let s = all_frames(free, live, only(b));
    assert(s.contains(b));
    assert forall|c: Block| #[trigger] free.contains(c) implies c.addr != a by {
        lemma_pow2_pos(c.order);
        assert(s.contains(c));
        assert(!only(b).contains(c));
    }
    if live.contains_key(a) {
        let c = Block { addr: a, order: live[a] };
        lemma_pow2_pos(c.order);
        assert(taken(live).contains(c));
        assert(s.contains(c));
        assert(!only(b).contains(c));
    }
}

/// A free block can be taken in hand.
pub proof fn lemma_take(free: Set<Block>, live: Map<int, nat>, b: Block, orders: nat)
    requires
        sound(free, live, Set::empty(), orders),
        free.contains(b),
    ensures
        sound(free.remove(b), live, only(b), orders),
        same_cover(
            all_frames(free.remove(b), live, only(b)),
            all_frames(free, live, Set::empty()),
        ),
{
    assert(all_frames(free.remove(b), live, only(b)) =~= all_frames(free, live, Set::empty()));
}

/// The block in hand can be halved; either half stays in hand, the other becomes free.
pub proof fn lemma_halve(free: Set<Block>, live: Map<int, nat>, b: Block, half: Block, orders: nat)
    requires
        sound(free, live, only(b), orders),
        b.order > 0,
        half == b.left() || half == b.right(),
    ensures
        sound(free.insert(half.buddy()), live, only(half), orders),
        same_cover(
            all_frames(free.insert(half.buddy()), live, only(half)),
            all_frames(free, live, only(b)),
        ),
{
    let s = all_frames(free, live, only(b));
    assert(s.contains(b));
    blocks::lemma_halves(b);
    blocks::lemma_split(s, b);
    lemma_pow2_pos(half.order);
    let other = half.buddy();
    let t = all_frames(free.insert(other), live, only(half));
    assert forall|c: Block| #[trigger] taken(live).contains(c) implies c != b by {
        assert(!only(b).contains(c));
    }
    assert forall|c: Block| #[trigger] free.contains(c) implies c != b by {
        assert(!only(b).contains(c));
    }
    assert(t =~= s.remove(b).insert(b.left()).insert(b.right()));
    assert(!s.contains(b.left()) && !s.contains(b.right()));
}

/// The block in hand can be handed over.
pub proof fn lemma_hand_over(free: Set<Block>, live: Map<int, nat>, b: Block, orders: nat)
    requires
        sound(free, live, only(b), orders),
    ensures
        !live.contains_key(b.addr),
        sound(free, live.insert(b.addr, b.order), Set::empty(), orders),
        same_cover(
            all_frames(free, live.insert(b.addr, b.order), Set::empty()),
            all_frames(free, live, only(b)),
        ),
{
    let s = all_frames(free, live, only(b));
    let after = live.insert(b.addr, b.order);
    lemma_pow2_pos(b.order);
    lemma_in_hand(free, live, b, b.addr, orders);
    assert(taken(after) =~= taken(live).insert(b));
    assert(all_frames(free, after, Set::empty()) =~= s);
    assert forall|c: Block| #[trigger] free.contains(c) implies !taken(after).contains(c) by {
        assert(!only(b).contains(c));
    }
}

/// A taken block can be taken back in hand.
pub proof fn lemma_take_back(free: Set<Block>, live: Map<int, nat>, a: int, orders: nat)
    requires
        sound(free, live, Set::empty(), orders),
        live.contains_key(a),
    ensures
        sound(free, live.remove(a), only(Block { addr: a, order: live[a] }), orders),
        same_cover(
            all_frames(free, live.remove(a), only(Block { addr: a, order: live[a] })),
            all_frames(free, live, Set::empty()),
        ),
{
    let b = Block { addr: a, order: live[a] };
    let after = live.remove(a);
    assert(taken(live).contains(b));
    assert(taken(after) =~= taken(live).remove(b));
    assert(all_frames(free, after, only(b)) =~= all_frames(free, live, Set::empty()));
}

/// The block in hand can take in its buddy, where that is free.
pub proof fn lemma_join(free: Set<Block>, live: Map<int, nat>, b: Block, orders: nat)
    requires
        sound(free, live, only(b), orders),
        b.order + 1 < orders,
        free.contains(b.buddy()),
    ensures
        sound(free.remove(b.buddy()), live, only(b.parent()), orders),
        b.parent().addr == if b.buddy().addr < b.addr {
            b.buddy().addr
        } else {
            b.addr
        },
        same_cover(
            all_frames(free.remove(b.buddy()), live, only(b.parent())),
            all_frames(free, live, only(b)),
        ),
{
    let s = all_frames(free, live, only(b));
    let c = b.buddy();
    let p = b.parent();
    assert(s.contains(b));
    assert(s.contains(c));
    blocks::lemma_buddies(b);
    blocks::lemma_halves(p);
    blocks::lemma_merge(s, b);
    let t = all_frames(free.remove(c), live, only(p));
    assert forall|x: Block| #[trigger] taken(live).contains(x) implies x != b && x != c by {
        assert(!only(b).contains(x));
    }
    assert forall|x: Block| #[trigger] free.contains(x) implies x != b by {
        assert(!only(b).contains(x));
    }
    assert(t =~= s.remove(b).remove(c).insert(p));
    assert(!s.contains(p));
}

/// The block in hand can be made free.
pub proof fn lemma_put_back(free: Set<Block>, live: Map<int, nat>, b: Block, orders: nat)
    requires
        sound(free, live, only(b), orders),
    ensures
        sound(free.insert(b), live, Set::empty(), orders),
        same_cover(
            all_frames(free.insert(b), live, Set::empty()),
            all_frames(free, live, only(b)),
        ),
{
    assert(all_frames(free.insert(b), live, Set::empty()) =~= all_frames(free, live, only(b)));
    assert forall|c: Block| #[trigger] taken(live).contains(c) implies c != b by {
        assert(!only(b).contains(c));
    }
}

/// Giving back the block in hand keeps the allocator sound.
pub proof fn lemma_joined(free: Set<Block>, live: Map<int, nat>, b: Block, orders: nat)
    requires
        sound(free, live, only(b), orders),
    ensures
        sound(joined(free, b, orders), live, Set::empty(), orders),
        same_cover(
            all_frames(joined(free, b, orders), live, Set::empty()),
            all_frames(free, live, only(b)),
        ),
    decreases orders - b.order,
{
    if b.order + 1 < orders && free.contains(b.buddy()) {
        lemma_join(free, live, b, orders);
        lemma_joined(free.remove(b.buddy()), live, b.parent(), orders);
    } else {
        lemma_put_back(free, live, b, orders);
    }
}

/// Halving the free block `whole` down to the ancestor of `part` of order `from` leaves that
/// ancestor in hand.
pub proof fn lemma_cut(v: FrameView, whole: Block, part: Block, from: nat, orders: nat)
    requires
        v.inv(orders),
        v.free.contains(whole),
        part.aligned(),
        whole.contains(part),
        part.order <= from <= whole.order,
    ensures
        sound(
            v.free.remove(whole).union(siblings(part, from, whole.order)),
            v.live,
            only(ancestor(part, from)),
            orders,
        ),
        same_cover(
            all_frames(
                v.free.remove(whole).union(siblings(part, from, whole.order)),
                v.live,
                only(ancestor(part, from)),
            ),
            all_frames(v.free, v.live, Set::empty()),
        ),
    decreases whole.order - from,
{
    assert(all_frames(v.free, v.live, Set::empty()).contains(whole));
    lemma_holder_is_ancestor(part, whole);
    lemma_siblings_step(part, from, whole.order);
    if from == whole.order {
        lemma_take(v.free, v.live, whole, orders);
        assert(v.free.remove(whole).union(siblings(part, from, whole.order)) =~= v.free.remove(
            whole,
        ));
    } else {
        lemma_cut(v, whole, part, from + 1, orders);
        let rest = v.free.remove(whole).union(siblings(part, from + 1, whole.order));
        let b = ancestor(part, from + 1);
        let half = ancestor(part, from);
        lemma_ancestor(part, from);
        blocks::lemma_buddies(half);
        lemma_halve(rest, v.live, b, half, orders);
        assert(v.free.remove(whole).union(siblings(part, from, whole.order)) =~= rest.insert(
            half.buddy(),
        ));
    }
}

/// Giving back the ancestor of `part` of order `from`, once the free block `whole` was halved
/// down to it, restores the free blocks, where `whole` has no free buddy to merge with.
pub proof fn lemma_joined_siblings(
    v: FrameView,
    whole: Block,
    part: Block,
    from: nat,
    orders: nat,
)
    requires
        v.inv(orders),
        v.free.contains(whole),
        part.aligned(),
        whole.contains(part),
        part.order <= from <= whole.order,
        whole.order + 1 < orders ==> !v.free.contains(whole.buddy()),
    ensures
        joined(
            v.free.remove(whole).union(siblings(part, from, whole.order)),
            ancestor(part, from),
            orders,
        ) == v.free,
    decreases whole.order - from,
{
    let rest = v.free.remove(whole).union(siblings(part, from, whole.order));
    let half = ancestor(part, from);
    assert(v.blocks().contains(whole));
    lemma_holder_is_ancestor(part, whole);
    lemma_siblings_step(part, from, whole.order);
    if from == whole.order {
        assert(rest =~= v.free.remove(whole));
        assert(rest.insert(whole) =~= v.free);
    } else {
        let other = half.buddy();
        let p = half.parent();
        lemma_ancestor(part, from);
        lemma_ancestor(part, from + 1);
        lemma_pow2_pos(part.order);
        blocks::lemma_buddies(half);
        blocks::lemma_halves(p);
        blocks::lemma_nested(p, whole);
        // The other half lies in `whole`, so it was no free block.
        if v.free.contains(other) {
            assert(v.blocks().contains(other));
            lemma_pow2_pos(other.order);
        }
        assert(rest.contains(other));
        assert(rest.remove(other) =~= v.free.remove(whole).union(
            siblings(part, from + 1, whole.order),
        ));
        lemma_joined_siblings(v, whole, part, from + 1, orders);
    }
}

impl FrameView {
    /// Cutting out and handing over a block keeps the invariant.
    pub proof fn lemma_after_take(self, whole: Block, part: Block, orders: nat)
        requires
            self.inv(orders),
            self.free.contains(whole),
            part.aligned(),
            part.order <= whole.order,
            whole.contains(part),
        ensures
            self.after_take(whole, part).inv(orders),
            !self.live.contains_key(part.addr),
            same_cover(self.after_take(whole, part).blocks(), self.blocks()),
    {
        lemma_cut(self, whole, part, part.order, orders);
        lemma_ancestor(part, part.order);
        lemma_hand_over(
            self.free.remove(whole).union(siblings(part, part.order, whole.order)),
            self.live,
            part,
            orders,
        );
    }

    /// Giving a run back keeps the invariant.
    pub proof fn lemma_after_dealloc(self, a: int, orders: nat)
        requires
            self.inv(orders),
            self.live.contains_key(a),
        ensures
            self.after_dealloc(a, orders).inv(orders),
            same_cover(self.after_dealloc(a, orders).blocks(), self.blocks()),
    {
        lemma_take_back(self.free, self.live, a, orders);
        lemma_joined(
            self.free,
            self.live.remove(a),
            Block { addr: a, order: self.live[a] },
            orders,
        );
    }

    /// Only one block serves a request.
    pub proof fn lemma_next(self, order: nat, b: Block)
        requires
            serves(self.free, order, b),
        ensures
            self.can_serve(order),
            self.next(order) == b,
    {
        let c = self.next(order);
        assert(serves(self.free, order, c));
        assert(self.free.contains(c));
        assert(c == b);
    }

    /// Only one free block holds a given block.
    pub proof fn lemma_holder(self, part: Block, b: Block, orders: nat)
        requires
            self.inv(orders),
            holds(self.free, part, b),
        ensures
            self.can_take(part),
            self.holder(part) == b,
    {
        let c = self.holder(part);
        let all = all_frames(self.free, self.live, Set::empty());
        lemma_pow2_pos(part.order);
        assert(holds(self.free, part, c));
        assert(all.contains(b) && all.contains(c));
    }

    /// New frames that are clear of the old keep the invariant.
    pub proof fn lemma_after_add(self, start: int, end: int, orders: nat)
        requires
            self.inv(orders),
            0 <= start <= end <= usize::MAX,
            orders > 0,
            self.clear_of(start, end),
        ensures
            (FrameView {
                free: self.free.union(blocks::greedy(start, end, (orders - 1) as nat)),
                ..self
            }).inv(orders),
    {
        let top = (orders - 1) as nat;
        let new = blocks::greedy(start, end, top);
        let s = self.blocks();
        let t = all_frames(self.free.union(new), self.live, Set::empty());
        blocks::lemma_greedy(start, end, top);
        assert(t =~= s.union(new));
        assert forall|b: Block| #[trigger] new.contains(b) implies !taken(self.live).contains(
            b,
        ) by {
            lemma_pow2_pos(b.order);
            if taken(self.live).contains(b) {
                assert(s.contains(b));
            }
        }
    }
}

} // verus!
