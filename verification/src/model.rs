//! The mathematical model of a heap: free lists by order, and the grants that are live.

use crate::bits;
use crate::blocks;
use crate::blocks::Block;
use vstd::arithmetic::power2::*;
use vstd::prelude::*;

verus! {

/// One block in the hands of a caller.
pub struct Grant {
    pub order: nat,
    /// The bytes that were asked for; `None` where a whole block was.
    pub size: Option<nat>,
}

impl Grant {
    /// The bytes that the block takes.
    pub open spec fn bytes(self) -> nat {
        pow2(self.order)
    }

    /// The bytes that count as requested.
    pub open spec fn requested(self) -> nat {
        match self.size {
            Some(size) => size,
            None => 0,
        }
    }
}

/// The blocks in the free lists: list `k` holds the addresses of the blocks of order `k`.
pub open spec fn free_blocks(free: Seq<Seq<int>>) -> Set<Block> {
    Set::new(|b: Block| b.order < free.len() && free[b.order as int].contains(b.addr))
}

/// The blocks that are granted.
pub open spec fn live_blocks(live: Map<int, Grant>) -> Set<Block> {
    Set::new(|b: Block| live.contains_key(b.addr) && live[b.addr].order == b.order)
}

/// All blocks there are: free, granted, or in hand.
pub open spec fn all_blocks(
    free: Seq<Seq<int>>,
    live: Map<int, Grant>,
    hand: Set<Block>,
) -> Set<Block> {
    Set::new(
        |b: Block|
            free_blocks(free).contains(b) || live_blocks(live).contains(b) || hand.contains(b),
    )
}

/// The lists with the block at `a` put at the head of list `k`.
pub open spec fn pushed(free: Seq<Seq<int>>, k: int, a: int) -> Seq<Seq<int>> {
    free.update(k, seq![a] + free[k])
}

/// The lists with the block at `a` taken out of list `k`.
pub open spec fn dropped(free: Seq<Seq<int>>, k: int, a: int) -> Seq<Seq<int>> {
    free.update(k, free[k].remove(free[k].index_of(a)))
}

/// No list holds a block twice.
pub open spec fn distinct(free: Seq<Seq<int>>) -> bool {
    forall|k: int| 0 <= k < free.len() ==> (#[trigger] free[k]).no_duplicates()
}

/// The bytes in the lists below order `n`.
pub open spec fn weight_below(free: Seq<Seq<int>>, n: int) -> nat
    decreases n,
{
    if n <= 0 {
        0
    } else {
        weight_below(free, n - 1) + free[n - 1].len() * pow2((n - 1) as nat)
    }
}

/// The bytes in all lists.
pub open spec fn weight(free: Seq<Seq<int>>) -> nat {
    weight_below(free, free.len() as int)
}

/// The sum of `f` over the grants.
pub open spec fn sum_live(live: Map<int, Grant>, f: spec_fn(Grant) -> nat) -> nat
    decreases live.dom().len(),
{
    if live.dom().finite() && live.dom().len() > 0 {
        let a = live.dom().choose();
        f(live[a]) + sum_live(live.remove(a), f)
    } else {
        0
    }
}

/// The bytes that the granted blocks take.
pub open spec fn granted_bytes(live: Map<int, Grant>) -> nat {
    sum_live(live, |g: Grant| g.bytes())
}

/// The bytes that callers asked for.
pub open spec fn requested_bytes(live: Map<int, Grant>) -> nat {
    sum_live(live, |g: Grant| g.requested())
}

/// The least order from `k` up whose list is not empty; `free.len()` where all are.
pub open spec fn first_fit(free: Seq<Seq<int>>, k: int) -> int
    decreases free.len() - k,
{
    if k >= free.len() {
        free.len() as int
    } else if free[k].len() > 0 {
        k
    } else {
        first_fit(free, k + 1)
    }
}

/// The lists once the head of list `i` is taken and halved down to order `k`: of each
/// order from `k` up to `i` the upper half stays behind.
pub open spec fn split_off(free: Seq<Seq<int>>, k: int, i: int) -> Seq<Seq<int>> {
    Seq::new(
        free.len(),
        |j: int|
            if k <= j < i {
                seq![free[i][0] + pow2(j as nat)]
            } else if j == i {
                free[i].drop_first()
            } else {
                free[j]
            },
    )
}

/// The lists once the block of order `k` at `a` is given back: it takes in its buddy as
/// long as that is free and an order above exists, and heads the list of what it grew to.
pub open spec fn coalesce(free: Seq<Seq<int>>, a: int, k: nat) -> Seq<Seq<int>>
    decreases free.len() - k,
{
    let buddy = blocks::buddy_addr(a, k);
    if k + 1 < free.len() && free[k as int].contains(buddy) {
        coalesce(
            dropped(free, k as int, buddy),
            if buddy < a {
                buddy
            } else {
                a
            },
            k + 1,
        )
    } else {
        pushed(free, k as int, a)
    }
}

/// The lists once `[lo, hi)` is cut, from the low end, into the greatest blocks that fit,
/// each put at the head of its list.
pub open spec fn seeded(free: Seq<Seq<int>>, lo: int, hi: int) -> Seq<Seq<int>>
    decreases hi - lo,
{
    if lo >= hi {
        free
    } else {
        let order = blocks::fitting_order(lo, hi - lo, (free.len() - 1) as nat);
        if 0 < pow2(order) <= hi - lo {
            seeded(pushed(free, order as int, lo), lo + pow2(order), hi)
        } else {
            free
        }
    }
}

/// `n` empty lists.
pub open spec fn no_lists(n: nat) -> Seq<Seq<int>> {
    Seq::new(n, |k: int| Seq::<int>::empty())
}

/// The free blocks, the grants and the block in hand (if any) are all different, tile
/// `[lo, hi)`, and have orders from `min` up to the number of lists; no two free blocks
/// are left that could be one.
pub open spec fn sound(
    free: Seq<Seq<int>>,
    live: Map<int, Grant>,
    hand: Set<Block>,
    lo: int,
    hi: int,
    min: nat,
) -> bool {
    &&& distinct(free)
    &&& blocks::tiles(all_blocks(free, live, hand), lo, hi)
    &&& forall|b: Block| #[trigger]
        free_blocks(free).contains(b) ==> !live_blocks(live).contains(b) && !hand.contains(b)
    &&& forall|b: Block| #[trigger] live_blocks(live).contains(b) ==> !hand.contains(b)
    &&& forall|b: Block| #[trigger]
        all_blocks(free, live, hand).contains(b) ==> min <= b.order < free.len()
    &&& blocks::merged(free_blocks(free), (free.len() - 1) as nat)
}

/// What a heap holds.
#[verifier::ext_equal]
pub struct HeapView {
    /// The area set aside for metadata.
    pub table_start: int,
    pub table_end: int,
    /// The data region.
    pub lo: int,
    pub hi: int,
    /// The addresses of the free blocks by order, list heads first.
    pub free: Seq<Seq<int>>,
    /// The grants by address.
    pub live: Map<int, Grant>,
    /// Bytes asked for, bytes granted, and bytes in the data region.
    pub user: int,
    pub allocated: int,
    pub total: int,
}

impl HeapView {
    /// A heap with `orders` free lists and nothing to give.
    pub open spec fn nothing(orders: nat) -> HeapView {
        HeapView {
            table_start: 0,
            table_end: 0,
            lo: 0,
            hi: 0,
            free: no_lists(orders),
            live: Map::empty(),
            user: 0,
            allocated: 0,
            total: 0,
        }
    }

    /// The number of units of order `min` in the data region.
    pub open spec fn units(self, min: nat) -> int {
        (self.hi - self.lo) / (pow2(min) as int)
    }

    /// The unit of order `min` that holds an address of the data region.
    pub open spec fn unit_index(self, min: nat, a: int) -> int {
        (a - self.lo) / (pow2(min) as int)
    }

    /// Where a unit of order `min` starts.
    pub open spec fn unit_addr(self, min: nat, x: int) -> int {
        self.lo + x * pow2(min)
    }

    /// Some free block can give one of order `k`.
    pub open spec fn fits(self, k: int) -> bool {
        first_fit(self.free, k) < self.free.len()
    }

    /// Where the next block of order `k` comes from: the head of the first list that has one.
    pub open spec fn pick(self, k: int) -> int {
        self.free[first_fit(self.free, k)][0]
    }

    /// The heap once the next block of order `k` is granted.
    pub open spec fn after_alloc(self, k: int, size: Option<nat>) -> HeapView {
        let grant = Grant { order: k as nat, size };
        HeapView {
            free: split_off(self.free, k, first_fit(self.free, k)),
            live: self.live.insert(self.pick(k), grant),
            user: self.user + grant.requested(),
            allocated: self.allocated + grant.bytes(),
            ..self
        }
    }

    /// The heap once the grant at `a` is given back.
    pub open spec fn after_dealloc(self, a: int) -> HeapView {
        let grant = self.live[a];
        HeapView {
            free: coalesce(self.free, a, grant.order),
            live: self.live.remove(a),
            user: self.user - grant.requested(),
            allocated: self.allocated - grant.bytes(),
            ..self
        }
    }

    /// What always holds of a heap whose units are of order `min` and have a record of
    /// `record` bytes each.
    pub open spec fn inv(self, min: nat, record: int) -> bool {
        &&& sound(self.free, self.live, Set::empty(), self.lo, self.hi, min)
        &&& self.live.dom().finite()
        &&& forall|a: int| #[trigger]
            self.live.contains_key(a) ==> self.live[a].requested() <= self.live[a].bytes()
        &&& self.user == requested_bytes(self.live)
        &&& self.allocated == granted_bytes(self.live)
        &&& self.allocated + weight(self.free) == self.total
        &&& self.total == self.hi - self.lo
        &&& 0 <= self.table_start <= self.table_end <= self.lo <= self.hi
        &&& self.lo < self.hi ==> 0 < self.lo
        &&& (self.table_end - self.table_start) * pow2(min) == record * self.total
    }
}

/// Changing the length of one list changes the weight accordingly.
pub proof fn lemma_weight_update(free: Seq<Seq<int>>, k: int, list: Seq<int>, n: int)
    requires
        0 <= k < free.len(),
        n <= free.len(),
    ensures
        weight_below(free.update(k, list), n) == weight_below(free, n) + (if k < n {
            (list.len() - free[k].len()) * pow2(k as nat)
        } else {
            0
        }),
    decreases n,
{
    if n > 0 {
        lemma_weight_update(free, k, list, n - 1);
        if k == n - 1 {
            vstd::arithmetic::mul::lemma_mul_is_distributive_sub_other_way(
                pow2(k as nat) as int,
                list.len() as int,
                free[k].len() as int,
            );
        }
    }
}

/// What `pushed` does to the set of free blocks and to their weight.
pub proof fn lemma_pushed(free: Seq<Seq<int>>, k: int, a: int)
    requires
        0 <= k < free.len(),
    ensures
        pushed(free, k, a).len() == free.len(),
        free_blocks(pushed(free, k, a)) == free_blocks(free).insert(
            Block { addr: a, order: k as nat },
        ),
        weight(pushed(free, k, a)) == weight(free) + pow2(k as nat),
        distinct(free) && !free[k].contains(a) ==> distinct(pushed(free, k, a)),
{
    let list = seq![a] + free[k];
    let after = pushed(free, k, a);
    lemma_weight_update(free, k, list, free.len() as int);
    assert(list.len() - free[k].len() == 1);
    assert forall|x: int| list.contains(x) == (x == a || free[k].contains(x)) by {
        if x == a {
            assert(list[0] == a);
        }
        if free[k].contains(x) {
            assert(list[free[k].index_of(x) + 1] == x);
        }
        if list.contains(x) {
            let i = list.index_of(x);
            if i > 0 {
                assert(free[k][i - 1] == x);
            }
        }
    }
    assert(free_blocks(after) =~= free_blocks(free).insert(Block { addr: a, order: k as nat }));
    if distinct(free) && !free[k].contains(a) {
        assert forall|j: int| 0 <= j < after.len() implies (
        #[trigger] after[j]).no_duplicates() by {
            assert(free[j].no_duplicates());
            if j == k {
                assert forall|i: int, m: int|
                    0 <= i < list.len() && 0 <= m < list.len() && i != m implies list[i]
                    != list[m] by {
                    if i > 0 {
                        assert(free[k].contains(list[i]));
                    }
                    if m > 0 {
                        assert(free[k].contains(list[m]));
                    }
                }
            }
        }
    }
}

/// What `dropped` does to the set of free blocks and to their weight.
pub proof fn lemma_dropped(free: Seq<Seq<int>>, k: int, a: int)
    requires
        0 <= k < free.len(),
        distinct(free),
        free[k].contains(a),
    ensures
        dropped(free, k, a).len() == free.len(),
        free_blocks(dropped(free, k, a)) == free_blocks(free).remove(
            Block { addr: a, order: k as nat },
        ),
        weight(dropped(free, k, a)) + pow2(k as nat) == weight(free),
        distinct(dropped(free, k, a)),
{
    let at = free[k].index_of(a);
    let list = free[k].remove(at);
    let after = dropped(free, k, a);
    lemma_weight_update(free, k, list, free.len() as int);
    assert(free[k].no_duplicates());
    assert(list.len() - free[k].len() == -1);
    assert forall|x: int| list.contains(x) == (x != a && free[k].contains(x)) by {
        if list.contains(x) {
            let i = list.index_of(x);
            if i < at {
                assert(free[k][i] == x);
            } else {
                assert(free[k][i + 1] == x);
            }
        }
        if x != a && free[k].contains(x) {
            let i = free[k].index_of(x);
            if i < at {
                assert(list[i] == x);
            } else {
                assert(list[i - 1] == x);
            }
        }
    }
    assert(free_blocks(after) =~= free_blocks(free).remove(Block { addr: a, order: k as nat }));
    assert forall|j: int| 0 <= j < after.len() implies (#[trigger] after[j]).no_duplicates() by {
        assert(free[j].no_duplicates());
    }
}

/// Taking the head out of a list is dropping it.
pub proof fn lemma_drop_head(free: Seq<Seq<int>>, k: int)
    requires
        0 <= k < free.len(),
        distinct(free),
        free[k].len() > 0,
    ensures
        free[k].contains(free[k][0]),
        dropped(free, k, free[k][0]) == free.update(k, free[k].drop_first()),
{
    assert(free[k].no_duplicates());
    assert(free[k].contains(free[k][0]));
    assert(free[k].index_of(free[k][0]) == 0);
    assert(free[k].remove(0) =~= free[k].drop_first());
}

/// The set that holds one block.
pub open spec fn only(b: Block) -> Set<Block> {
    Set::empty().insert(b)
}

/// A free block can be taken in hand.
pub proof fn lemma_take(
    free: Seq<Seq<int>>,
    live: Map<int, Grant>,
    b: Block,
    lo: int,
    hi: int,
    min: nat,
)
    requires
        sound(free, live, Set::empty(), lo, hi, min),
        free_blocks(free).contains(b),
    ensures
        sound(dropped(free, b.order as int, b.addr), live, only(b), lo, hi, min),
{
    lemma_dropped(free, b.order as int, b.addr);
    let after = dropped(free, b.order as int, b.addr);
    assert(all_blocks(after, live, only(b)) =~= all_blocks(free, live, Set::empty()));
}

/// No free block and no grant starts in the block in hand.
pub proof fn lemma_in_hand(
    free: Seq<Seq<int>>,
    live: Map<int, Grant>,
    b: Block,
    a: int,
    lo: int,
    hi: int,
    min: nat,
)
    requires
        sound(free, live, only(b), lo, hi, min),
        b.covers(a),
    ensures
        forall|k: int| 0 <= k < free.len() ==> !(#[trigger] free[k]).contains(a),
        !live.contains_key(a),
{
    let s = all_blocks(free, live, only(b));
    assert(s.contains(b));
    assert forall|k: int| 0 <= k < free.len() implies !(#[trigger] free[k]).contains(a) by {
        if free[k].contains(a) {
            let c = Block { addr: a, order: k as nat };
            lemma_pow2_pos(c.order);
            assert(free_blocks(free).contains(c));
            assert(s.contains(c));
            assert(!only(b).contains(c));
        }
    }
    if live.contains_key(a) {
        let c = Block { addr: a, order: live[a].order };
        lemma_pow2_pos(c.order);
        assert(live_blocks(live).contains(c));
        assert(s.contains(c));
        assert(!only(b).contains(c));
    }
}

/// The block in hand can be halved: the upper half becomes free, the lower stays in hand.
pub proof fn lemma_halve(
    free: Seq<Seq<int>>,
    live: Map<int, Grant>,
    b: Block,
    lo: int,
    hi: int,
    min: nat,
)
    requires
        sound(free, live, only(b), lo, hi, min),
        b.order > min,
    ensures
        sound(pushed(free, b.order - 1, b.right().addr), live, only(b.left()), lo, hi, min),
{
    let s = all_blocks(free, live, only(b));
    let l = b.left();
    let r = b.right();
    assert(s.contains(b));
    blocks::lemma_halves(b);
    blocks::lemma_split(s, b);
    assert(!free_blocks(free).contains(r));
    lemma_pushed(free, b.order - 1, r.addr);
    let after = pushed(free, b.order - 1, r.addr);
    let t = all_blocks(after, live, only(l));
    assert(!s.contains(l) && !s.contains(r));
    assert forall|c: Block| #[trigger] live_blocks(live).contains(c) implies c != b by {
        assert(!only(b).contains(c));
    }
    assert forall|c: Block| #[trigger] free_blocks(free).contains(c) implies c != b by {
        assert(!only(b).contains(c));
    }
    assert(t =~= s.remove(b).insert(l).insert(r));
    assert forall|a: int| lo <= a < hi implies #[trigger] blocks::covered(t, a) by {
        assert(blocks::covered(s, a));
    }
    assert forall|c: Block| #[trigger] free_blocks(after).contains(c) implies !live_blocks(
        live,
    ).contains(c) && !only(l).contains(c) by {
        if c != r {
            assert(free_blocks(free).contains(c));
        }
        assert(!s.contains(l));
    }
    let top = (free.len() - 1) as nat;
    assert forall|c: Block| free_blocks(after).contains(c) && c.order < top implies !free_blocks(
        after,
    ).contains(#[trigger] c.buddy()) by {
        if c == r {
            assert(c.buddy() == l);
        } else {
            assert(s.contains(c));
            blocks::lemma_buddies(c);
            if c.buddy() == r {
                assert(c == l);
            }
        }
    }
}

/// The block in hand can be granted.
pub proof fn lemma_hand_over(
    free: Seq<Seq<int>>,
    live: Map<int, Grant>,
    b: Block,
    grant: Grant,
    lo: int,
    hi: int,
    min: nat,
)
    requires
        sound(free, live, only(b), lo, hi, min),
        grant.order == b.order,
    ensures
        !live.contains_key(b.addr),
        sound(free, live.insert(b.addr, grant), Set::empty(), lo, hi, min),
{
    let s = all_blocks(free, live, only(b));
    let after = live.insert(b.addr, grant);
    assert(s.contains(b));
    lemma_pow2_pos(b.order);
    lemma_in_hand(free, live, b, b.addr, lo, hi, min);
    assert(live_blocks(after) =~= live_blocks(live).insert(b));
    assert(all_blocks(free, after, Set::empty()) =~= s);
}

/// A grant can be taken back in hand.
pub proof fn lemma_take_back(
    free: Seq<Seq<int>>,
    live: Map<int, Grant>,
    a: int,
    lo: int,
    hi: int,
    min: nat,
)
    requires
        sound(free, live, Set::empty(), lo, hi, min),
        live.contains_key(a),
    ensures
        sound(
            free,
            live.remove(a),
            only(Block { addr: a, order: live[a].order }),
            lo,
            hi,
            min,
        ),
{
    let b = Block { addr: a, order: live[a].order };
    let after = live.remove(a);
    assert(live_blocks(live).contains(b));
    assert(live_blocks(after) =~= live_blocks(live).remove(b));
    assert(all_blocks(free, after, only(b)) =~= all_blocks(free, live, Set::empty()));
}

/// The block in hand can take in its buddy, where that is free.
pub proof fn lemma_join(
    free: Seq<Seq<int>>,
    live: Map<int, Grant>,
    b: Block,
    lo: int,
    hi: int,
    min: nat,
)
    requires
        sound(free, live, only(b), lo, hi, min),
        b.order + 1 < free.len(),
        free[b.order as int].contains(b.buddy().addr),
    ensures
        sound(
            dropped(free, b.order as int, b.buddy().addr),
            live,
            only(b.parent()),
            lo,
            hi,
            min,
        ),
{
    let s = all_blocks(free, live, only(b));
    let c = b.buddy();
    let p = b.parent();
    assert(s.contains(b));
    assert(free_blocks(free).contains(c));
    assert(s.contains(c));
    blocks::lemma_buddies(b);
    blocks::lemma_halves(p);
    blocks::lemma_merge(s, b);
    lemma_dropped(free, b.order as int, c.addr);
    let after = dropped(free, b.order as int, c.addr);
    let t = all_blocks(after, live, only(p));
    assert forall|x: Block| #[trigger] live_blocks(live).contains(x) implies x != b && x != c by {
        assert(!only(b).contains(x));
    }
    assert forall|x: Block| #[trigger] free_blocks(free).contains(x) implies x != b by {
        assert(!only(b).contains(x));
    }
    assert(t =~= s.remove(b).remove(c).insert(p));
    assert forall|a: int| lo <= a < hi implies #[trigger] blocks::covered(t, a) by {
        assert(blocks::covered(s, a));
    }
    assert(!s.contains(p));
    assert forall|x: Block| free_blocks(after).contains(x) && x.order < (free.len()
        - 1) as nat implies !free_blocks(after).contains(#[trigger] x.buddy()) by {
        assert(free_blocks(free).contains(x));
    }
}

/// The block in hand can be made free, where it has no free buddy to merge with.
pub proof fn lemma_put_back(
    free: Seq<Seq<int>>,
    live: Map<int, Grant>,
    b: Block,
    lo: int,
    hi: int,
    min: nat,
)
    requires
        sound(free, live, only(b), lo, hi, min),
        b.order + 1 < free.len() ==> !free[b.order as int].contains(b.buddy().addr),
    ensures
        sound(pushed(free, b.order as int, b.addr), live, Set::empty(), lo, hi, min),
{
    let s = all_blocks(free, live, only(b));
    assert(s.contains(b));
    if free_blocks(free).contains(b) {
        assert(!only(b).contains(b));
    }
    assert(!free_blocks(free).contains(b));
    lemma_pushed(free, b.order as int, b.addr);
    let after = pushed(free, b.order as int, b.addr);
    assert(all_blocks(after, live, Set::empty()) =~= s);
    let top = (free.len() - 1) as nat;
    assert forall|c: Block| free_blocks(after).contains(c) && c.order < top implies !free_blocks(
        after,
    ).contains(#[trigger] c.buddy()) by {
        assert(s.contains(c));
        blocks::lemma_buddies(c);
        if c != b && c.buddy() == b {
            assert(b.buddy() == c);
            assert(free_blocks(free).contains(c));
        }
    }
}

/// The sum over the grants splits into one of them and the rest.
pub proof fn lemma_sum_live(live: Map<int, Grant>, f: spec_fn(Grant) -> nat, a: int)
    requires
        live.dom().finite(),
        live.contains_key(a),
    ensures
        sum_live(live, f) == f(live[a]) + sum_live(live.remove(a), f),
    decreases live.dom().len(),
{
    let c = live.dom().choose();
    assert(live.dom().contains(a));
    assert(live.dom().contains(c));
    if c != a {
        lemma_sum_live(live.remove(c), f, a);
        lemma_sum_live(live.remove(a), f, c);
        assert(live.remove(c).remove(a) =~= live.remove(a).remove(c));
    }
}

/// No more bytes are requested than granted.
pub proof fn lemma_requested_le_granted(live: Map<int, Grant>)
    requires
        live.dom().finite(),
        forall|a: int| #[trigger]
            live.contains_key(a) ==> live[a].requested() <= live[a].bytes(),
    ensures
        requested_bytes(live) <= granted_bytes(live),
    decreases live.dom().len(),
{
    if live.dom().len() > 0 {
        let a = live.dom().choose();
        assert(live.dom().contains(a));
        assert(live.contains_key(a));
        lemma_requested_le_granted(live.remove(a));
    }
}

/// What a new grant does to the sums.
pub proof fn lemma_sums_insert(live: Map<int, Grant>, a: int, grant: Grant)
    requires
        live.dom().finite(),
        !live.contains_key(a),
    ensures
        granted_bytes(live.insert(a, grant)) == granted_bytes(live) + grant.bytes(),
        requested_bytes(live.insert(a, grant)) == requested_bytes(live) + grant.requested(),
{
    let after = live.insert(a, grant);
    assert(after.remove(a) =~= live);
    lemma_sum_live(after, |g: Grant| g.bytes(), a);
    lemma_sum_live(after, |g: Grant| g.requested(), a);
}

/// What the end of a grant does to the sums.
pub proof fn lemma_sums_remove(live: Map<int, Grant>, a: int)
    requires
        live.dom().finite(),
        live.contains_key(a),
    ensures
        granted_bytes(live) == granted_bytes(live.remove(a)) + live[a].bytes(),
        requested_bytes(live) == requested_bytes(live.remove(a)) + live[a].requested(),
{
    lemma_sum_live(live, |g: Grant| g.bytes(), a);
    lemma_sum_live(live, |g: Grant| g.requested(), a);
}

/// Where `first_fit` points, and what lies below.
pub proof fn lemma_first_fit(free: Seq<Seq<int>>, k: int)
    requires
        0 <= k,
    ensures
        k < free.len() ==> k <= first_fit(free, k) <= free.len(),
        first_fit(free, k) < free.len() ==> free[first_fit(free, k)].len() > 0,
        forall|j: int|
            k <= j < first_fit(free, k) && j < free.len() ==> (#[trigger] free[j]).len() == 0,
    decreases free.len() - k,
{
    if k < free.len() && free[k].len() == 0 {
        lemma_first_fit(free, k + 1);
    }
}

/// `split_off` one order at a time.
pub proof fn lemma_split_off_step(free: Seq<Seq<int>>, k: int, i: int)
    requires
        0 <= k <= i < free.len(),
        forall|j: int| k <= j < i ==> (#[trigger] free[j]).len() == 0,
    ensures
        k == i ==> split_off(free, k, i) == free.update(i, free[i].drop_first()),
        k < i ==> split_off(free, k, i) == pushed(
            split_off(free, k + 1, i),
            k,
            free[i][0] + pow2(k as nat),
        ),
{
    if k < i {
        let a = free[i][0] + pow2(k as nat);
        assert(free[k] =~= Seq::empty());
        assert(seq![a] + free[k] =~= seq![a]);
        assert(split_off(free, k, i) =~= pushed(split_off(free, k + 1, i), k, a));
    } else {
        assert(split_off(free, k, i) =~= free.update(i, free[i].drop_first()));
    }
}

/// Halving the head of list `i` down to order `k` leaves the lower end in hand.
pub proof fn lemma_split_off(
    free: Seq<Seq<int>>,
    live: Map<int, Grant>,
    k: int,
    i: int,
    lo: int,
    hi: int,
    min: nat,
)
    requires
        sound(free, live, Set::empty(), lo, hi, min),
        min <= k <= i < free.len(),
        free[i].len() > 0,
        forall|j: int| k <= j < i ==> (#[trigger] free[j]).len() == 0,
    ensures
        sound(
            split_off(free, k, i),
            live,
            only(Block { addr: free[i][0], order: k as nat }),
            lo,
            hi,
            min,
        ),
        weight(split_off(free, k, i)) + pow2(k as nat) == weight(free),
    decreases i - k,
{
    let a = free[i][0];
    lemma_split_off_step(free, k, i);
    if k == i {
        lemma_drop_head(free, i);
        lemma_take(free, live, Block { addr: a, order: i as nat }, lo, hi, min);
        lemma_dropped(free, i, a);
    } else {
        lemma_split_off(free, live, k + 1, i, lo, hi, min);
        let rest = split_off(free, k + 1, i);
        let b = Block { addr: a, order: (k + 1) as nat };
        lemma_halve(rest, live, b, lo, hi, min);
        lemma_pushed(rest, k, a + pow2(k as nat));
        bits::lemma_pow2_step(k as nat);
    }
}

/// Giving back the lower end, once the head of list `i` was halved down to order `k`, puts
/// the lists back as they were.
pub proof fn lemma_coalesce_split_off(
    free: Seq<Seq<int>>,
    live: Map<int, Grant>,
    k: int,
    i: int,
    lo: int,
    hi: int,
    min: nat,
)
    requires
        sound(free, live, Set::empty(), lo, hi, min),
        0 <= k <= i < free.len(),
        free[i].len() > 0,
        forall|j: int| k <= j < i ==> (#[trigger] free[j]).len() == 0,
    ensures
        coalesce(split_off(free, k, i), free[i][0], k as nat) == free,
    decreases i - k,
{
    let a = free[i][0];
    let b = Block { addr: a, order: i as nat };
    let after = split_off(free, k, i);
    assert(free[i].contains(a));
    assert(free_blocks(free).contains(b));
    assert(all_blocks(free, live, Set::empty()).contains(b));
    lemma_split_off_step(free, k, i);
    if k == i {
        let rest = free[i].drop_first();
        if i + 1 < free.len() && rest.contains(b.buddy().addr) {
            assert(free[i][rest.index_of(b.buddy().addr) + 1] == b.buddy().addr);
            assert(free_blocks(free).contains(b.buddy()));
        }
        assert(seq![a] + rest =~= free[i]);
        assert(pushed(after, i, a) =~= free);
    } else {
        let upper = a + pow2(k as nat);
        bits::lemma_multiple_of_lower(a, (k + 1) as nat, i as nat);
        bits::lemma_pow2_step(k as nat);
        assert(blocks::buddy_addr(a, k as nat) == upper);
        assert(after[k] =~= seq![upper]);
        assert(after[k][0] == upper);
        assert(after[k].index_of(upper) == 0);
        assert(after[k].remove(0) =~= free[k]);
        assert(dropped(after, k, upper) =~= split_off(free, k + 1, i));
        lemma_coalesce_split_off(free, live, k + 1, i, lo, hi, min);
    }
}

/// Giving back the block in hand keeps the heap sound.
pub proof fn lemma_coalesce(
    free: Seq<Seq<int>>,
    live: Map<int, Grant>,
    b: Block,
    lo: int,
    hi: int,
    min: nat,
)
    requires
        sound(free, live, only(b), lo, hi, min),
    ensures
        sound(coalesce(free, b.addr, b.order), live, Set::empty(), lo, hi, min),
        weight(coalesce(free, b.addr, b.order)) == weight(free) + b.end() - b.addr,
        coalesce(free, b.addr, b.order).len() == free.len(),
    decreases free.len() - b.order,
{
    let s = all_blocks(free, live, only(b));
    assert(s.contains(b));
    let buddy = b.buddy().addr;
    if b.order + 1 < free.len() && free[b.order as int].contains(buddy) {
        lemma_join(free, live, b, lo, hi, min);
        lemma_dropped(free, b.order as int, buddy);
        bits::lemma_pow2_step(b.order);
        lemma_coalesce(dropped(free, b.order as int, buddy), live, b.parent(), lo, hi, min);
    } else {
        lemma_put_back(free, live, b, lo, hi, min);
        lemma_pushed(free, b.order as int, b.addr);
    }
}

/// Seeding adds the greedy tiling to the free blocks.
pub proof fn lemma_seeded(free: Seq<Seq<int>>, lo: int, hi: int)
    requires
        lo <= hi,
        free.len() > 0,
        distinct(free),
        forall|b: Block| #[trigger] free_blocks(free).contains(b) ==> b.addr < lo,
    ensures
        seeded(free, lo, hi).len() == free.len(),
        distinct(seeded(free, lo, hi)),
        free_blocks(seeded(free, lo, hi)) == free_blocks(free).union(
            blocks::greedy(lo, hi, (free.len() - 1) as nat),
        ),
        weight(seeded(free, lo, hi)) == weight(free) + hi - lo,
    decreases hi - lo,
{
    let top = (free.len() - 1) as nat;
    if lo < hi {
        let order = blocks::fitting_order(lo, hi - lo, top);
        blocks::lemma_fitting_order(lo, hi - lo, top);
        lemma_pow2_pos(order);
        let b = Block { addr: lo, order };
        let more = pushed(free, order as int, lo);
        lemma_pushed(free, order as int, lo);
        if free[order as int].contains(lo) {
            assert(free_blocks(free).contains(b));
        }
        lemma_seeded(more, lo + pow2(order), hi);
        assert(free_blocks(seeded(free, lo, hi)) =~= free_blocks(free).union(
            blocks::greedy(lo, hi, top),
        ));
    } else {
        assert(free_blocks(seeded(free, lo, hi)) =~= free_blocks(free).union(
            blocks::greedy(lo, hi, top),
        ));
    }
}

/// Empty lists hold nothing.
pub proof fn lemma_no_lists(n: nat)
    ensures
        distinct(no_lists(n)),
        free_blocks(no_lists(n)) == Set::<Block>::empty(),
        weight(no_lists(n)) == 0,
{
    assert(free_blocks(no_lists(n)) =~= Set::<Block>::empty());
    lemma_weight_of_nothing(n, n as int);
}

proof fn lemma_weight_of_nothing(n: nat, m: int)
    requires
        m <= n,
    ensures
        weight_below(no_lists(n), m) == 0,
    decreases m,
{
    if m > 0 {
        lemma_weight_of_nothing(n, m - 1);
    }
}

/// A seeded region without grants is sound.
pub proof fn lemma_seeded_sound(orders: nat, lo: int, hi: int, min: nat)
    requires
        lo <= hi,
        min < orders,
        lo % (pow2(min) as int) == 0,
        hi % (pow2(min) as int) == 0,
    ensures
        sound(seeded(no_lists(orders), lo, hi), Map::empty(), Set::empty(), lo, hi, min),
        weight(seeded(no_lists(orders), lo, hi)) == hi - lo,
        seeded(no_lists(orders), lo, hi).len() == orders,
{
    let top = (orders - 1) as nat;
    let free = seeded(no_lists(orders), lo, hi);
    lemma_no_lists(orders);
    lemma_seeded(no_lists(orders), lo, hi);
    let tiling = blocks::greedy(lo, hi, top);
    assert(free_blocks(free) =~= tiling);
    blocks::lemma_greedy(lo, hi, top);
    lemma_greedy_orders(lo, hi, top, min);
    assert(all_blocks(free, Map::empty(), Set::empty()) =~= tiling);
}

/// The greedy tiling of a range of whole units has no block below a unit.
proof fn lemma_greedy_orders(lo: int, hi: int, top: nat, min: nat)
    requires
        lo <= hi,
        min <= top,
        lo % (pow2(min) as int) == 0,
        hi % (pow2(min) as int) == 0,
    ensures
        forall|b: Block| #[trigger] blocks::greedy(lo, hi, top).contains(b) ==> b.order >= min,
    decreases hi - lo,
{
    if lo < hi {
        let unit = pow2(min) as int;
        lemma_pow2_pos(min);
        let order = blocks::fitting_order(lo, hi - lo, top);
        bits::lemma_multiples_apart(lo, hi, unit);
        blocks::lemma_fitting_order(lo, hi - lo, top);
        blocks::lemma_fitting_order_at_least(lo, hi - lo, top, min);
        lemma_pow2_pos(order);
        bits::lemma_multiple_of_lower(lo, min, order);
        bits::lemma_multiples_add(lo, pow2(order) as int, unit);
        lemma_greedy_orders(lo + pow2(order), hi, top, min);
        assert(blocks::greedy(lo, hi, top) == blocks::greedy(lo + pow2(order), hi, top).insert(
            Block { addr: lo, order },
        ));
    }
}

impl HeapView {
    /// A heap with nothing to give is in order.
    pub proof fn lemma_nothing(orders: nat, min: nat, record: int)
        ensures
            HeapView::nothing(orders).inv(min, record),
    {
        let free = no_lists(orders);
        lemma_no_lists(orders);
        assert(all_blocks(free, Map::empty(), Set::empty()) =~= Set::empty());
        vstd::arithmetic::mul::lemma_mul_basics(pow2(min) as int);
        vstd::arithmetic::mul::lemma_mul_basics(record);
    }

    /// Granting a block keeps the invariant.
    pub proof fn lemma_after_alloc(self, k: int, size: Option<nat>, min: nat, record: int)
        requires
            self.inv(min, record),
            min <= k,
            self.fits(k),
            size matches Some(n) ==> n <= pow2(k as nat),
        ensures
            self.after_alloc(k, size).inv(min, record),
            !self.live.contains_key(self.pick(k)),
            self.allocated + pow2(k as nat) <= self.total,
    {
        let i = first_fit(self.free, k);
        let a = self.pick(k);
        let b = Block { addr: a, order: k as nat };
        let grant = Grant { order: k as nat, size };
        lemma_first_fit(self.free, k);
        lemma_pow2_pos(k as nat);
        lemma_split_off(self.free, self.live, k, i, self.lo, self.hi, min);
        let free = split_off(self.free, k, i);
        lemma_hand_over(free, self.live, b, grant, self.lo, self.hi, min);
        lemma_sums_insert(self.live, a, grant);
    }

    /// Giving a block back keeps the invariant.
    pub proof fn lemma_after_dealloc(self, a: int, min: nat, record: int)
        requires
            self.inv(min, record),
            self.live.contains_key(a),
        ensures
            self.after_dealloc(a).inv(min, record),
            self.after_dealloc(a).user >= 0,
            self.after_dealloc(a).allocated >= 0,
    {
        let b = Block { addr: a, order: self.live[a].order };
        lemma_take_back(self.free, self.live, a, self.lo, self.hi, min);
        lemma_coalesce(self.free, self.live.remove(a), b, self.lo, self.hi, min);
        lemma_sums_remove(self.live, a);
    }
}

} // verus!
