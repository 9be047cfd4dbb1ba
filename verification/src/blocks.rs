//! Naturally aligned blocks, and the ways they tile an address range.

use crate::bits;
use vstd::arithmetic::power2::*;
use vstd::prelude::*;

verus! {

/// The block of `2^order` addresses that starts at `addr`.
pub struct Block {
    pub addr: int,
    pub order: nat,
}

/// The other half of the pair that the block at `addr` forms with its neighbour
/// at the same order.
pub open spec fn buddy_addr(addr: int, order: nat) -> int {
    if addr % (pow2(order + 1) as int) == 0 {
        addr + pow2(order)
    } else {
        addr - pow2(order)
    }
}

impl Block {
    /// One past the block's last address.
    pub open spec fn end(self) -> int {
        self.addr + pow2(self.order)
    }

    /// The block starts at a multiple of its size.
    pub open spec fn aligned(self) -> bool {
        self.addr % (pow2(self.order) as int) == 0
    }

    /// The address lies in the block.
    pub open spec fn covers(self, a: int) -> bool {
        self.addr <= a < self.end()
    }

    /// The other block lies in this one.
    pub open spec fn contains(self, other: Block) -> bool {
        self.addr <= other.addr && other.end() <= self.end()
    }

    /// The two blocks share no address.
    pub open spec fn disjoint(self, other: Block) -> bool {
        self.end() <= other.addr || other.end() <= self.addr
    }

    /// The block that this one merges with.
    pub open spec fn buddy(self) -> Block {
        Block { addr: buddy_addr(self.addr, self.order), order: self.order }
    }

    /// The lower half.
    pub open spec fn left(self) -> Block {
        Block { addr: self.addr, order: (self.order - 1) as nat }
    }

    /// The upper half.
    pub open spec fn right(self) -> Block {
        Block { addr: self.addr + pow2((self.order - 1) as nat), order: (self.order - 1) as nat }
    }

    /// The block that this one and its buddy are the halves of.
    pub open spec fn parent(self) -> Block {
        Block {
            addr: if self.buddy().addr < self.addr {
                self.buddy().addr
            } else {
                self.addr
            },
            order: self.order + 1,
        }
    }
}

/// The blocks of `s` are aligned and share no address.
pub open spec fn packed(s: Set<Block>) -> bool {
    &&& forall|b: Block| #[trigger] s.contains(b) ==> b.aligned()
    &&& forall|b: Block, c: Block|
        #[trigger] s.contains(b) && #[trigger] s.contains(c) && b != c ==> b.disjoint(c)
}

/// The blocks of `s` are aligned, share no address, and together make up `[lo, hi)`.
pub open spec fn tiles(s: Set<Block>, lo: int, hi: int) -> bool {
    &&& packed(s)
    &&& forall|b: Block| #[trigger] s.contains(b) ==> lo <= b.addr && b.end() <= hi
    &&& forall|a: int| lo <= a < hi ==> #[trigger] covered(s, a)
}

/// Some block of `s` holds the address.
pub open spec fn covered(s: Set<Block>, a: int) -> bool {
    exists|b: Block| s.contains(b) && #[trigger] b.covers(a)
}

/// No two blocks of `s` of an order below `top` are buddies.
pub open spec fn merged(s: Set<Block>, top: nat) -> bool {
    forall|b: Block| s.contains(b) && b.order < top ==> !s.contains(#[trigger] b.buddy())
}

/// The greatest order up to `top` of a block that may start at `addr` and takes
/// no more than `room` addresses.
pub open spec fn fitting_order(addr: int, room: int, top: nat) -> nat
    decreases top,
{
    if top == 0 || (addr % (pow2(top) as int) == 0 && pow2(top) <= room) {
        top
    } else {
        fitting_order(addr, room, (top - 1) as nat)
    }
}

/// The tiling of `[lo, hi)` that always takes the greatest block that fits next.
pub open spec fn greedy(lo: int, hi: int, top: nat) -> Set<Block>
    decreases hi - lo,
{
    if lo >= hi {
        Set::empty()
    } else {
        let order = fitting_order(lo, hi - lo, top);
        if 0 < pow2(order) <= hi - lo {
            greedy(lo + pow2(order), hi, top).insert(Block { addr: lo, order })
        } else {
            Set::empty()
        }
    }
}

/// The halves of an aligned block are aligned buddies that make it up.
pub proof fn lemma_halves(b: Block)
    requires
        b.aligned(),
        b.order > 0,
    ensures
        b.left().aligned(),
        b.right().aligned(),
        b.left().end() == b.right().addr,
        b.right().end() == b.end(),
        b.left().buddy() == b.right(),
        b.right().buddy() == b.left(),
        b.left().parent() == b,
        b.right().parent() == b,
        b.addr < b.right().addr < b.end(),
{
    let k = (b.order - 1) as nat;
    let h = pow2(k) as int;
    bits::lemma_pow2_step(k);
    bits::lemma_multiple_of_lower(b.addr, k, b.order);
    vstd::arithmetic::div_mod::lemma_mod_multiples_basic(1, h);
    bits::lemma_multiples_add(b.addr, h, h);
    if (b.addr + h) % (2 * h) == 0 {
        bits::lemma_multiples_add(b.addr + h, b.addr, 2 * h);
        vstd::arithmetic::div_mod::lemma_small_mod(h as nat, (2 * h) as nat);
    }
}

/// An aligned block and its buddy are the halves of their aligned parent.
pub proof fn lemma_buddies(b: Block)
    requires
        b.aligned(),
    ensures
        b.parent().aligned(),
        b.buddy().aligned(),
        b.buddy().buddy() == b,
        b.buddy() != b,
        b.parent().left() == b || b.parent().right() == b,
        b.parent().left() == b ==> b.parent().right() == b.buddy(),
        b.parent().right() == b ==> b.parent().left() == b.buddy(),
{
    let k = b.order;
    let h = pow2(k) as int;
    bits::lemma_pow2_step(k);
    if b.addr % (2 * h) != 0 {
        // An odd multiple of `h`: one step down is an even one.
        vstd::arithmetic::div_mod::lemma_fundamental_div_mod(b.addr, h);
        let q = b.addr / h;
        if q % 2 == 0 {
            assert(b.addr == (q / 2) * (2 * h)) by (nonlinear_arith)
                requires
                    b.addr == h * q,
                    q == 2 * (q / 2),
            ;
            vstd::arithmetic::div_mod::lemma_mod_multiples_basic(q / 2, 2 * h);
        }
        let e = (q - 1) / 2;
        assert(b.addr - h == e * (2 * h)) by (nonlinear_arith)
            requires
                b.addr == h * q,
                q == 2 * e + 1,
        ;
        vstd::arithmetic::div_mod::lemma_mod_multiples_basic(e, 2 * h);
    }
    lemma_halves(b.parent());
}

/// Of two aligned blocks that share an address, the one of higher order holds the other.
pub proof fn lemma_nested(b: Block, c: Block)
    requires
        b.aligned(),
        c.aligned(),
        b.order <= c.order,
        !b.disjoint(c),
    ensures
        c.contains(b),
        b.order == c.order ==> b == c,
{
    let h = pow2(b.order) as int;
    lemma_pow2_pos(b.order);
    bits::lemma_multiple_of_lower(c.addr, b.order, c.order);
    bits::lemma_multiples_add(c.addr, pow2(c.order) as int, h);
    bits::lemma_multiples_apart(b.addr, c.addr, h);
    bits::lemma_multiples_apart(b.addr, c.end(), h);
    bits::lemma_multiples_apart(c.addr, b.addr, h);
}

/// Splitting a block in its halves keeps a packing, and what it covers.
pub proof fn lemma_split(s: Set<Block>, b: Block)
    requires
        packed(s),
        s.contains(b),
        b.order > 0,
    ensures
        packed(s.remove(b).insert(b.left()).insert(b.right())),
        forall|a: int| #[trigger]
            covered(s.remove(b).insert(b.left()).insert(b.right()), a) == covered(s, a),
        !s.contains(b.left()),
        !s.contains(b.right()),
{
    lemma_halves(b);
    lemma_pow2_pos(b.left().order);
    let t = s.remove(b).insert(b.left()).insert(b.right());
    assert forall|c: Block| s.contains(c) && c != b implies c.disjoint(b.left()) && c.disjoint(
        b.right(),
    ) by {
        assert(c.disjoint(b));
    }
    if s.contains(b.left()) {
        assert(b.left().disjoint(b));
    }
    if s.contains(b.right()) {
        assert(b.right().disjoint(b));
    }
    assert forall|a: int| #[trigger] covered(t, a) == covered(s, a) by {
        if covered(s, a) {
            let c = choose|c: Block| s.contains(c) && #[trigger] c.covers(a);
            if c == b {
                if a < b.right().addr {
                    assert(t.contains(b.left()) && b.left().covers(a));
                } else {
                    assert(t.contains(b.right()) && b.right().covers(a));
                }
            } else {
                assert(t.contains(c) && c.covers(a));
            }
        }
        if covered(t, a) {
            let c = choose|c: Block| t.contains(c) && #[trigger] c.covers(a);
            if c == b.left() || c == b.right() {
                assert(s.contains(b) && b.covers(a));
            } else {
                assert(s.contains(c) && c.covers(a));
            }
        }
    }
}

/// Putting two buddies together keeps a packing, and what it covers.
pub proof fn lemma_merge(s: Set<Block>, b: Block)
    requires
        packed(s),
        s.contains(b),
        s.contains(b.buddy()),
    ensures
        packed(s.remove(b).remove(b.buddy()).insert(b.parent())),
        forall|a: int| #[trigger]
            covered(s.remove(b).remove(b.buddy()).insert(b.parent()), a) == covered(s, a),
        !s.contains(b.parent()),
{
    lemma_buddies(b);
    let p = b.parent();
    lemma_halves(p);
    lemma_pow2_pos(b.order);
    let t = s.remove(b).remove(b.buddy()).insert(p);
    if s.contains(p) {
        assert(p.disjoint(b));
    }
    assert forall|c: Block| s.contains(c) && c != b && c != b.buddy() implies c.disjoint(p) by {
        assert(c.disjoint(b));
        assert(c.disjoint(b.buddy()));
        lemma_pow2_pos(c.order);
        if !c.disjoint(p) {
            if c.order <= p.order {
                lemma_nested(c, p);
            } else {
                lemma_nested(p, c);
            }
        }
    }
    assert forall|a: int| #[trigger] covered(t, a) == covered(s, a) by {
        if covered(s, a) {
            let c = choose|c: Block| s.contains(c) && #[trigger] c.covers(a);
            if c == b || c == b.buddy() {
                assert(t.contains(p) && p.covers(a));
            } else {
                assert(t.contains(c) && c.covers(a));
            }
        }
        if covered(t, a) {
            let c = choose|c: Block| t.contains(c) && #[trigger] c.covers(a);
            if c == p {
                if b.covers(a) {
                    assert(s.contains(b) && b.covers(a));
                } else {
                    assert(s.contains(b.buddy()) && b.buddy().covers(a));
                }
            } else {
                assert(s.contains(c) && c.covers(a));
            }
        }
    }
}

/// In a packing without buddies, every aligned block that is covered lies in one member.
pub proof fn lemma_in_one_member(s: Set<Block>, top: nat, b: Block)
    requires
        packed(s),
        merged(s, top),
        b.aligned(),
        b.order <= top,
        forall|a: int| b.covers(a) ==> #[trigger] covered(s, a),
    ensures
        exists|t: Block| s.contains(t) && #[trigger] t.contains(b),
    decreases b.order,
{
    bits::lemma_pow2_step(b.order);
    if b.order == 0 {
        assert(b.covers(b.addr));
        assert(covered(s, b.addr));
        let t = choose|t: Block| s.contains(t) && #[trigger] t.covers(b.addr);
        assert(t.contains(b));
    } else {
        lemma_halves(b);
        lemma_in_one_member(s, top, b.left());
        lemma_in_one_member(s, top, b.right());
        let l = choose|t: Block| s.contains(t) && #[trigger] t.contains(b.left());
        let r = choose|t: Block| s.contains(t) && #[trigger] t.contains(b.right());
        lemma_member_grows(l, b.left(), b);
        lemma_member_grows(r, b.right(), b);
        if !l.contains(b) && !r.contains(b) {
            assert(l == b.left() && r == b.right());
            assert(!s.contains(l.buddy()));
        }
    }
}

/// A block that holds a half of `b` is that half or holds `b`.
proof fn lemma_member_grows(t: Block, half: Block, b: Block)
    requires
        t.aligned(),
        b.aligned(),
        b.order > 0,
        half == b.left() || half == b.right(),
        t.contains(half),
    ensures
        t == half || t.contains(b),
{
    lemma_halves(b);
    lemma_pow2_pos(half.order);
    if t.order >= b.order {
        lemma_nested(b, t);
    } else {
        bits::lemma_pow2_monotone(t.order, half.order);
        if t.order < half.order {
            lemma_pow2_strictly_increases(t.order, half.order);
        }
    }
}

/// Two packings by blocks of orders up to `top` that cover the same addresses are
/// equal if neither has two buddies left to merge.
pub proof fn lemma_merged_packings_agree(s: Set<Block>, t: Set<Block>, top: nat)
    requires
        packed(s),
        packed(t),
        merged(s, top),
        merged(t, top),
        forall|b: Block| #[trigger] s.contains(b) ==> b.order <= top,
        forall|b: Block| #[trigger] t.contains(b) ==> b.order <= top,
        forall|a: int| #[trigger] covered(s, a) == covered(t, a),
    ensures
        s == t,
{
    assert forall|b: Block| #[trigger] s.contains(b) implies t.contains(b) by {
        lemma_merged_member_in_other(s, t, top, b);
    }
    assert forall|b: Block| #[trigger] t.contains(b) implies s.contains(b) by {
        assert forall|a: int| #[trigger] covered(t, a) == covered(s, a) by {
            assert(covered(s, a) == covered(t, a));
        }
        lemma_merged_member_in_other(t, s, top, b);
    }
    assert(s =~= t);
}

proof fn lemma_merged_member_in_other(s: Set<Block>, t: Set<Block>, top: nat, b: Block)
    requires
        packed(s),
        packed(t),
        merged(s, top),
        merged(t, top),
        forall|c: Block| #[trigger] t.contains(c) ==> c.order <= top,
        forall|a: int| #[trigger] covered(s, a) == covered(t, a),
        s.contains(b),
        b.order <= top,
    ensures
        t.contains(b),
{
    assert forall|a: int| b.covers(a) implies #[trigger] covered(t, a) by {
        assert(covered(s, a));
    }
    lemma_in_one_member(t, top, b);
    let c = choose|c: Block| t.contains(c) && #[trigger] c.contains(b);
    assert forall|a: int| c.covers(a) implies #[trigger] covered(s, a) by {
        assert(covered(t, a));
    }
    lemma_in_one_member(s, top, c);
    let d = choose|d: Block| s.contains(d) && #[trigger] d.contains(c);
    lemma_pow2_pos(b.order);
    lemma_pow2_pos(c.order);
    assert(!d.disjoint(b));
    assert(d == b);
    if c.order < b.order {
        lemma_pow2_strictly_increases(c.order, b.order);
    } else if c.order > b.order {
        lemma_pow2_strictly_increases(b.order, c.order);
    }
    assert(c == b);
}

/// What `fitting_order` returns fits, and no higher order up to `top` does.
pub proof fn lemma_fitting_order(addr: int, room: int, top: nat)
    requires
        room >= 1,
    ensures
        fitting_order(addr, room, top) <= top,
        addr % (pow2(fitting_order(addr, room, top)) as int) == 0,
        pow2(fitting_order(addr, room, top)) <= room,
        forall|k: nat|
            fitting_order(addr, room, top) < k <= top && #[trigger] pow2(k) <= room ==> addr % (
            pow2(k) as int) != 0,
    decreases top,
{
    bits::lemma_pow2_step(0);
    if top > 0 && !(addr % (pow2(top) as int) == 0 && pow2(top) <= room) {
        lemma_fitting_order(addr, room, (top - 1) as nat);
        assert forall|k: nat|
            fitting_order(addr, room, top) < k <= top && #[trigger] pow2(k) <= room implies addr % (
        pow2(k) as int) != 0 by {
            if k < top {
                assert(k <= (top - 1) as nat);
            }
        }
    }
}

/// An order that fits, with no higher one up to `top` that does, is `fitting_order`.
pub proof fn lemma_fitting_order_unique(addr: int, room: int, top: nat, order: nat)
    requires
        room >= 1,
        order <= top,
        addr % (pow2(order) as int) == 0,
        pow2(order) <= room,
        order < top ==> addr % (pow2(order + 1) as int) != 0 || pow2(order + 1) > room,
    ensures
        fitting_order(addr, room, top) == order,
{
    lemma_fitting_order(addr, room, top);
    let f = fitting_order(addr, room, top);
    if f < order {
        assert(pow2(order) <= room);
    } else if f > order {
        bits::lemma_multiple_of_lower(addr, order + 1, f);
        bits::lemma_pow2_monotone(order + 1, f);
    }
}

/// A range whose bounds are multiples of `2^low` offers blocks of at least that order.
pub proof fn lemma_fitting_order_at_least(addr: int, room: int, top: nat, low: nat)
    requires
        low <= top,
        addr % (pow2(low) as int) == 0,
        pow2(low) <= room,
    ensures
        fitting_order(addr, room, top) >= low,
{
    lemma_pow2_pos(low);
    lemma_fitting_order(addr, room, top);
}

/// The greedy tiling is a tiling, and has no two buddies left to merge.
pub proof fn lemma_greedy(lo: int, hi: int, top: nat)
    requires
        lo <= hi,
    ensures
        tiles(greedy(lo, hi, top), lo, hi),
        merged(greedy(lo, hi, top), top),
        forall|b: Block| #[trigger]
            greedy(lo, hi, top).contains(b) ==> b.order == fitting_order(b.addr, hi - b.addr, top)
                && b.order <= top,
{
    lemma_greedy_tiles(lo, hi, top);
    let s = greedy(lo, hi, top);
    assert forall|b: Block| s.contains(b) && b.order < top implies !s.contains(
        #[trigger] b.buddy(),
    ) by {
        if s.contains(b.buddy()) {
            lemma_buddies(b);
            let p = b.parent();
            lemma_halves(p);
            let l = p.left();
            assert(s.contains(l) && s.contains(p.right()));
            lemma_pow2_pos(l.order);
            lemma_fitting_order(l.addr, hi - l.addr, top);
            assert(pow2(p.order) <= hi - l.addr);
        }
    }
}

proof fn lemma_greedy_tiles(lo: int, hi: int, top: nat)
    requires
        lo <= hi,
    ensures
        tiles(greedy(lo, hi, top), lo, hi),
        forall|b: Block| #[trigger]
            greedy(lo, hi, top).contains(b) ==> b.order == fitting_order(b.addr, hi - b.addr, top)
                && b.order <= top,
    decreases hi - lo,
{
    if lo < hi {
        let order = fitting_order(lo, hi - lo, top);
        lemma_fitting_order(lo, hi - lo, top);
        lemma_pow2_pos(order);
        let mid = lo + pow2(order);
        lemma_greedy_tiles(mid, hi, top);
        let rest = greedy(mid, hi, top);
        let b = Block { addr: lo, order };
        let s = greedy(lo, hi, top);
        assert(s == rest.insert(b));
        assert forall|a: int| lo <= a < hi implies #[trigger] covered(s, a) by {
            if a < mid {
                assert(s.contains(b) && b.covers(a));
            } else {
                assert(covered(rest, a));
                let c = choose|c: Block| rest.contains(c) && #[trigger] c.covers(a);
                assert(s.contains(c) && c.covers(a));
            }
        }
    }
}

/// Buddies lie in one block of the next order.
proof fn lemma_same_parent(b: Block)
    requires
        b.aligned(),
    ensures
        b.buddy().addr / (pow2(b.order + 1) as int) == b.addr / (pow2(b.order + 1) as int),
{
    let p = b.parent();
    let d = pow2(b.order + 1) as int;
    bits::lemma_pow2_step(b.order);
    lemma_buddies(b);
    lemma_halves(p);
    vstd::arithmetic::div_mod::lemma_fundamental_div_mod(p.addr, d);
    let q = p.addr / d;
    vstd::arithmetic::mul::lemma_mul_is_commutative(q, d);
    vstd::arithmetic::div_mod::lemma_fundamental_div_mod_converse(b.addr, d, q, b.addr - p.addr);
    vstd::arithmetic::div_mod::lemma_fundamental_div_mod_converse(
        b.buddy().addr,
        d,
        q,
        b.buddy().addr - p.addr,
    );
}

/// What the terms for blocks mean, in plain arithmetic.
pub proof fn law_block_terms(b: Block, c: Block, a: int)
    ensures
        b.end() == b.addr + pow2(b.order),
        b.aligned() <==> b.addr % (pow2(b.order) as int) == 0,
        b.covers(a) <==> b.addr <= a && a < b.addr + pow2(b.order),
        b.contains(c) <==> b.addr <= c.addr && c.addr + pow2(c.order) <= b.addr + pow2(b.order),
        b.disjoint(c) <==> b.addr + pow2(b.order) <= c.addr || c.addr + pow2(c.order) <= b.addr,
        b.aligned() ==> b.buddy().order == b.order && b.buddy() != b && b.buddy().addr % (pow2(
            b.order,
        ) as int) == 0 && b.buddy().addr / (pow2(b.order + 1) as int) == b.addr / (pow2(b.order + 1)
            as int),
{
    if b.aligned() {
        lemma_buddies(b);
        lemma_same_parent(b);
    }
}

/// What it means that a set of blocks covers an address.
pub proof fn law_covered(s: Set<Block>, b: Block, a: int)
    ensures
        s.contains(b) && b.addr <= a && a < b.addr + pow2(b.order) ==> covered(s, a),
        covered(s, a) ==> exists|c: Block| #[trigger]
            s.contains(c) && c.addr <= a && a < c.addr + pow2(c.order),
{
    if s.contains(b) && b.addr <= a && a < b.addr + pow2(b.order) {
        assert(s.contains(b) && b.covers(a));
    }
    if covered(s, a) {
        let c = choose|c: Block| s.contains(c) && #[trigger] c.covers(a);
        assert(s.contains(c));
    }
}

/// The address of the buddy of the block of `2^order` addresses at `addr`.
pub fn buddy_of(addr: usize, order: usize) -> (buddy: usize)
    requires
        order < usize::BITS,
        addr as int % (pow2(order as nat) as int) == 0,
    ensures
        buddy == buddy_addr(addr as int, order as nat),
        buddy as int % (pow2(order as nat) as int) == 0,
        buddy as int / (pow2(order as nat + 1) as int) == addr as int / (pow2(
            order as nat + 1,
        ) as int),
        buddy != addr,
{
    let bit: usize = bits::order_bytes(order);
    proof {
        let k = order as nat;
        let a = addr as int;
        let h = bit as int;
        bits::lemma_pow2_step(k);
        vstd::bits::lemma_usize_shr_is_div(addr, order);
        vstd::bits::lemma_usize_shl_is_mul(1, order);
        let q = a / h;
        vstd::arithmetic::div_mod::lemma_fundamental_div_mod(a, h);
        let shifted: usize = addr >> order;
        assert(shifted % 2 == 0 ==> addr & bit == 0 && (addr ^ bit) == addr + bit) by (bit_vector)
            requires
                order < usize::BITS,
                bit == 1usize << order,
                shifted == addr >> order,
        ;
        assert(shifted % 2 == 1 ==> (addr ^ bit) == addr - bit) by (bit_vector)
            requires
                order < usize::BITS,
                bit == 1usize << order,
                shifted == addr >> order,
        ;
        if q % 2 == 0 {
            assert(a == (q / 2) * (2 * h)) by (nonlinear_arith)
                requires
                    a == h * q,
                    q == 2 * (q / 2),
            ;
            vstd::arithmetic::div_mod::lemma_mod_multiples_basic(q / 2, 2 * h);
        } else {
            if a % (2 * h) == 0 {
                vstd::arithmetic::div_mod::lemma_fundamental_div_mod(a, 2 * h);
                let e = a / (2 * h);
                assert(a == (2 * e) * h) by (nonlinear_arith)
                    requires
                        a == (2 * h) * e,
                ;
                vstd::arithmetic::div_mod::lemma_div_by_multiple(2 * e, h);
            }
        }
    }
    proof {
        let b = Block { addr: addr as int, order: order as nat };
        lemma_buddies(b);
        lemma_same_parent(b);
    }
    addr ^ bit
}

} // verus!
