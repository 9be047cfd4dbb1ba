//! One metadata record per allocation unit, and the free lists threaded through them.

use vstd::prelude::*;

verus! {

/// "No predecessor" or "no successor" in a free list.
pub const NIL: usize = usize::MAX;

/// What a unit is at the moment.
#[derive(Clone, Copy, Debug, PartialEq, Eq, Structural)]
pub enum BlockState {
    Reserved,
    Free,
    Used,
}

/// The record of one unit.
///
/// - `state`: what the unit is.
/// - `order`: meaningful only for the heads of free and used blocks.
/// - `prev`, `next`: the neighbours in the free list, for the head of a free block.
#[derive(Clone, Copy, Debug)]
pub struct BlockMeta {
    state: BlockState,
    order: u8,
    prev: usize,
    next: usize,
}

impl BlockMeta {
    fn reserved() -> (meta: Self)
        ensures
            meta == (BlockMeta { state: BlockState::Reserved, order: 0, prev: NIL, next: NIL }),
    {
        BlockMeta { state: BlockState::Reserved, order: 0, prev: NIL, next: NIL }
    }
}

/// Head and length of one free list.
#[derive(Clone, Copy, Debug)]
struct FreeArea {
    head: usize,
    len: usize,
}

/// The records of all units, and one free list per order below `ORDER`.
pub struct BlockTable<const ORDER: usize> {
    area: [FreeArea; ORDER],
    meta: Vec<BlockMeta>,
    lists: Ghost<Seq<Seq<int>>>,
}

/// What a link that leads to position `i` of `list` holds.
spec fn link(list: Seq<int>, i: int) -> int {
    if 0 <= i < list.len() {
        list[i]
    } else {
        NIL as int
    }
}

/// The record of the `i`-th block of free list `k` says so, and links its neighbours.
spec fn node_ok(meta: Seq<BlockMeta>, lists: Seq<Seq<int>>, k: int, i: int) -> bool {
    let x = lists[k][i];
    &&& 0 <= x < meta.len()
    &&& meta[x].state == BlockState::Free
    &&& meta[x].order == k
    &&& meta[x].prev == link(lists[k], i - 1)
    &&& meta[x].next == link(lists[k], i + 1)
}

/// A unit whose record says free is in the list of its order.
spec fn listed(meta: Seq<BlockMeta>, lists: Seq<Seq<int>>, x: int) -> bool {
    meta[x].state == BlockState::Free ==> meta[x].order < lists.len()
        && lists[meta[x].order as int].contains(x)
}

/// A sequence of different indices below `n` that misses one of them is shorter than `n`.
proof fn lemma_room_for_one_more(list: Seq<int>, n: int, x: int)
    requires
        list.no_duplicates(),
        forall|i: int| 0 <= i < list.len() ==> 0 <= #[trigger] list[i] < n,
        0 <= x < n,
        !list.contains(x),
    ensures
        list.len() < n,
{
    let all = vstd::set_lib::set_int_range(0, n);
    vstd::set_lib::lemma_int_range(0, n);
    let more = list.push(x);
    assert(more.no_duplicates());
    more.unique_seq_to_set();
    assert(more.to_set().subset_of(all));
    vstd::set_lib::lemma_len_subset(more.to_set(), all);
}

impl<const ORDER: usize> BlockTable<ORDER> {
    /// The free lists, as unit indices, head first.
    pub closed spec fn lists(self) -> Seq<Seq<int>> {
        self.lists@
    }

    /// The order of the used block that each unit is the head of.
    pub closed spec fn used(self) -> Seq<Option<nat>> {
        Seq::new(
            self.meta@.len(),
            |x: int|
                if self.meta@[x].state == BlockState::Used {
                    Some(self.meta@[x].order as nat)
                } else {
                    None
                },
        )
    }

    /// What the record of a unit says the unit is.
    pub closed spec fn state(self, x: int) -> BlockState {
        self.meta@[x].state
    }

    /// The order that the record of a unit holds.
    pub closed spec fn recorded_order(self, x: int) -> nat {
        self.meta@[x].order as nat
    }

    /// The record of a unit says the same of it in both tables, links aside.
    pub open spec fn same_record(self, before: Self, x: int) -> bool {
        &&& self.state(x) == before.state(x)
        &&& self.recorded_order(x) == before.recorded_order(x)
    }

    /// The records, the list heads and the lengths agree with the lists.
    pub closed spec fn wf(self) -> bool {
        &&& self.lists@.len() == ORDER
        &&& forall|k: int, i: int|
            0 <= k < ORDER && 0 <= i < self.lists@[k].len() ==> #[trigger] node_ok(
                self.meta@,
                self.lists@,
                k,
                i,
            )
        &&& forall|k: int|
            0 <= k < ORDER ==> (#[trigger] self.lists@[k]).no_duplicates()
        &&& forall|k: int|
            0 <= k < ORDER ==> (#[trigger] self.area@[k]).head == link(self.lists@[k], 0)
                && self.area@[k].len == self.lists@[k].len()
        &&& forall|x: int|
            0 <= x < self.meta@.len() ==> #[trigger] listed(self.meta@, self.lists@, x)
    }

    /// What `wf` says of the lists.
    pub proof fn lemma_lists(self)
        requires
            self.wf(),
        ensures
            self.lists().len() == ORDER,
            forall|k: int|
                0 <= k < ORDER ==> (#[trigger] self.lists()[k]).no_duplicates(),
            forall|k: int, i: int|
                0 <= k < ORDER && 0 <= i < self.lists()[k].len() ==> 0
                    <= #[trigger] self.lists()[k][i] < self.used().len()
                    && self.used()[self.lists()[k][i]] is None,
            self.used().len() <= usize::MAX,
    {
        assert(self.meta.len() == self.meta@.len());
        assert forall|k: int, i: int|
            0 <= k < ORDER && 0 <= i < self.lists()[k].len() implies 0
            <= #[trigger] self.lists()[k][i] < self.used().len()
            && self.used()[self.lists()[k][i]] is None by {
            assert(node_ok(self.meta@, self.lists@, k, i));
        }
    }

    /// What `wf` says of the record of a unit.
    pub proof fn lemma_record(self, x: int)
        requires
            self.wf(),
            0 <= x < self.used().len(),
        ensures
            self.state(x) == BlockState::Used <==> self.used()[x] is Some,
            self.used()[x] matches Some(order) ==> self.recorded_order(x) == order,
            self.state(x) == BlockState::Free ==> self.recorded_order(x) < ORDER
                && self.lists()[self.recorded_order(x) as int].contains(x),
            forall|k: int|
                0 <= k < ORDER && (#[trigger] self.lists()[k]).contains(x) ==> self.state(x)
                    == BlockState::Free && self.recorded_order(x) == k,
    {
        assert(listed(self.meta@, self.lists@, x));
        assert forall|k: int|
            0 <= k < ORDER && (#[trigger] self.lists()[k]).contains(x) implies self.state(x)
            == BlockState::Free && self.recorded_order(x) == k by {
            assert(node_ok(self.meta@, self.lists@, k, self.lists@[k].index_of(x)));
        }
    }

    /// A table without units.
    pub fn new() -> (table: Self)
        ensures
            table.wf(),
            table.used() == Seq::<Option<nat>>::empty(),
            table.lists() == Seq::new(ORDER as nat, |k: int| Seq::<int>::empty()),
    {
        let none: FreeArea = FreeArea { head: NIL, len: 0 };
        let table = BlockTable {
            area: [none;ORDER],
            meta: Vec::new(),
            lists: Ghost(Seq::new(ORDER as nat, |k: int| Seq::<int>::empty())),
        };
        proof {
            assert(table.area == vstd::array::spec_array_fill_for_copy_type::<FreeArea, ORDER>(
                none,
            ));
            assert(table.used() =~= Seq::<Option<nat>>::empty());
            assert forall|k: int| 0 <= k < ORDER implies (#[trigger] table.area@[k]).head == link(
                table.lists@[k],
                0,
            ) && table.area@[k].len == table.lists@[k].len() by {
                assert(table.area@[k] == none);
                assert(table.lists@[k].len() == 0);
            }
        }
        table
    }

    /// Give the table `n` reserved units in place of those it has.
    pub fn lay_out(&mut self, n: usize)
        requires
            old(self).wf(),
            forall|k: int| 0 <= k < ORDER ==> (#[trigger] old(self).lists()[k]).len() == 0,
        ensures
            final(self).wf(),
            final(self).lists() == old(self).lists(),
            final(self).used() == Seq::new(n as nat, |x: int| None::<nat>),
            forall|x: int|
                #![trigger final(self).state(x)]
                #![trigger final(self).recorded_order(x)]
                0 <= x < n ==> final(self).state(x) == BlockState::Reserved
                    && final(self).recorded_order(x) == 0,
    {
        let mut meta: Vec<BlockMeta> = Vec::new();
        let mut i: usize = 0;
        while i < n
            invariant
                i <= n,
                meta@.len() == i,
                forall|x: int|
                    0 <= x < i ==> (#[trigger] meta@[x]).state == BlockState::Reserved
                        && meta@[x].order == 0,
            decreases n - i,
        {
            meta.push(BlockMeta::reserved());
            i += 1;
        }
        proof {
            assert(self.lists() == self.lists@);
        }
        self.meta = meta;
        assert(self.used() =~= Seq::new(n as nat, |x: int| None::<nat>));
    }

    /// The number of blocks in the free list of the order.
    pub fn count(&self, order: usize) -> (len: usize)
        requires
            self.wf(),
            order < ORDER,
        ensures
            len == self.lists()[order as int].len(),
    {
        self.area[order].len
    }

    /// Whether a free block of the order starts at the unit.
    pub fn is_free(&self, idx: usize, order: usize) -> (free: bool)
        requires
            self.wf(),
            idx < self.used().len(),
            order < ORDER,
        ensures
            free == self.lists()[order as int].contains(idx as int),
    {
        let free: bool = self.meta[idx].state == BlockState::Free && self.meta[idx].order as usize
            == order;
        proof {
            let x = idx as int;
            let list = self.lists@[order as int];
            assert(listed(self.meta@, self.lists@, x));
            if list.contains(x) {
                let i = list.index_of(x);
                assert(node_ok(self.meta@, self.lists@, order as int, i));
            }
        }
        free
    }

    /// The order of the used block that starts at the unit.
    pub fn used_order(&self, idx: usize) -> (order: Option<usize>)
        requires
            idx < self.used().len(),
        ensures
            order is Some == self.used()[idx as int] is Some,
            order matches Some(k) ==> self.used()[idx as int] == Some(k as nat),
    {
        if self.meta[idx].state == BlockState::Used {
            Some(self.meta[idx].order as usize)
        } else {
            None
        }
    }

    /// Make the unit the head of a used block of the order.
    pub fn mark_used(&mut self, idx: usize, order: usize)
        requires
            old(self).wf(),
            idx < old(self).used().len(),
            order <= u8::MAX,
            forall|k: int|
                0 <= k < ORDER ==> !(#[trigger] old(self).lists()[k]).contains(idx as int),
        ensures
            final(self).wf(),
            final(self).lists() == old(self).lists(),
            final(self).used() == old(self).used().update(idx as int, Some(order as nat)),
            final(self).state(idx as int) == BlockState::Used,
            final(self).recorded_order(idx as int) == order,
            forall|y: int|
                0 <= y < old(self).used().len() && y != idx
                    ==> #[trigger] final(self).same_record(*old(self), y),
    {
        let ghost before = *self;
        assert(before.lists() == before.lists@);
        self.meta[idx].state = BlockState::Used;
        self.meta[idx].order = order as u8;
        proof {
            before.lemma_set_aside(*self, idx as int);
        }
        assert(self.used() =~= before.used().update(idx as int, Some(order as nat)));
    }

    /// Make the unit, the head of a used block, reserved.
    pub fn mark_reserved(&mut self, idx: usize)
        requires
            old(self).wf(),
            idx < old(self).used().len(),
            old(self).used()[idx as int] is Some,
        ensures
            final(self).wf(),
            final(self).lists() == old(self).lists(),
            final(self).used() == old(self).used().update(idx as int, None),
            final(self).state(idx as int) == BlockState::Reserved,
            final(self).recorded_order(idx as int) == old(self).recorded_order(idx as int),
            forall|y: int|
                0 <= y < old(self).used().len() && y != idx
                    ==> #[trigger] final(self).same_record(*old(self), y),
    {
        let ghost before = *self;
        proof {
            before.lemma_lists();
            assert forall|k: int| 0 <= k < ORDER implies !(
            #[trigger] before.lists()[k]).contains(idx as int) by {
                if before.lists()[k].contains(idx as int) {
                    let i = before.lists()[k].index_of(idx as int);
                    assert(before.lists()[k][i] == idx);
                }
            }
        }
        self.meta[idx].state = BlockState::Reserved;
        proof {
            before.lemma_set_aside(*self, idx as int);
        }
        assert(self.used() =~= before.used().update(idx as int, None));
    }

    /// A change to the record of one unit that is in no list, and not made free, keeps `wf`.
    proof fn lemma_set_aside(self, after: Self, x: int)
        requires
            self.wf(),
            0 <= x < self.meta@.len(),
            forall|k: int| 0 <= k < ORDER ==> !(#[trigger] self.lists@[k]).contains(x),
            after.lists@ == self.lists@,
            after.area == self.area,
            after.meta@.len() == self.meta@.len(),
            forall|y: int|
                0 <= y < self.meta@.len() && y != x ==> #[trigger] after.meta@[y] == self.meta@[y],
            after.meta@[x].state != BlockState::Free,
        ensures
            after.wf(),
    {
        assert forall|k: int, i: int|
            0 <= k < ORDER && 0 <= i < after.lists@[k].len() implies #[trigger] node_ok(
            after.meta@,
            after.lists@,
            k,
            i,
        ) by {
            assert(node_ok(self.meta@, self.lists@, k, i));
            assert(self.lists@[k].contains(self.lists@[k][i]));
        }
        assert forall|y: int| 0 <= y < after.meta@.len() implies #[trigger] listed(
            after.meta@,
            after.lists@,
            y,
        ) by {
            assert(listed(self.meta@, self.lists@, y));
        }
    }

    /// Put the block that starts at the unit at the head of the free list of the order.
    pub fn push_free(&mut self, idx: usize, order: usize)
        requires
            old(self).wf(),
            order < ORDER,
            order <= u8::MAX,
            idx < old(self).used().len(),
            old(self).used()[idx as int] is None,
            forall|k: int|
                0 <= k < ORDER ==> !(#[trigger] old(self).lists()[k]).contains(idx as int),
        ensures
            final(self).wf(),
            final(self).used() == old(self).used(),
            final(self).lists() == old(self).lists().update(
                order as int,
                seq![idx as int] + old(self).lists()[order as int],
            ),
            final(self).state(idx as int) == BlockState::Free,
            final(self).recorded_order(idx as int) == order,
            forall|y: int|
                0 <= y < old(self).used().len() && y != idx
                    ==> #[trigger] final(self).same_record(*old(self), y),
    {
        let ghost before = *self;
        let ghost list = before.lists@[order as int];
        let ghost longer = seq![idx as int] + list;
        let old_head: usize = self.area[order].head;
        proof {
            assert(before.lists() == before.lists@);
            assert(before.meta.len() == before.meta@.len());
            assert(before.used()[idx as int] is None);
            assert(before.meta@[idx as int].state != BlockState::Used);
            assert forall|i: int| 0 <= i < list.len() implies 0 <= #[trigger] list[i]
                < before.meta@.len() by {
                assert(node_ok(before.meta@, before.lists@, order as int, i));
            }
            lemma_room_for_one_more(list, before.meta@.len() as int, idx as int);
            if list.len() > 0 {
                assert(node_ok(before.meta@, before.lists@, order as int, 0));
                assert(list.contains(list[0]));
            }
        }
        self.meta.set(
            idx,
            BlockMeta { state: BlockState::Free, order: order as u8, prev: NIL, next: old_head },
        );
        if old_head != NIL {
            self.meta[old_head].prev = idx;
        }
        self.area[order].head = idx;
        self.area[order].len += 1;
        proof {
            self.lists@ = before.lists@.update(order as int, longer);
            assert(longer.no_duplicates()) by {
                assert(!list.contains(idx as int));
                assert forall|i: int, j: int|
                    0 <= i < longer.len() && 0 <= j < longer.len() && i != j implies longer[i]
                    != longer[j] by {
                    if i > 0 {
                        assert(list.contains(longer[i]));
                    }
                    if j > 0 {
                        assert(list.contains(longer[j]));
                    }
                }
            }
            assert forall|k: int, i: int|
                0 <= k < ORDER && 0 <= i < self.lists@[k].len() implies #[trigger] node_ok(
                self.meta@,
                self.lists@,
                k,
                i,
            ) by {
                if k == order {
                    if i > 0 {
                        assert(node_ok(before.meta@, before.lists@, k, i - 1));
                        assert(list.contains(list[i - 1]));
                    }
                } else {
                    assert(node_ok(before.meta@, before.lists@, k, i));
                    assert(before.lists@[k].contains(before.lists@[k][i]));
                }
            }
            assert forall|x: int| 0 <= x < self.meta@.len() implies #[trigger] listed(
                self.meta@,
                self.lists@,
                x,
            ) by {
                assert(listed(before.meta@, before.lists@, x));
                if x == idx {
                    assert(longer[0] == x);
                } else if self.meta@[x].state == BlockState::Free && self.meta@[x].order == order {
                    let i = list.index_of(x);
                    assert(longer[i + 1] == x);
                }
            }
        }
        assert(self.used() =~= before.used());
    }

    /// Take the free block that starts at the unit out of its list.
    pub fn unlink_free(&mut self, idx: usize)
        requires
            old(self).wf(),
            idx < old(self).used().len(),
            exists|k: int|
                0 <= k < ORDER && (#[trigger] old(self).lists()[k]).contains(idx as int),
        ensures
            final(self).wf(),
            final(self).used() == old(self).used(),
            forall|k: int|
                0 <= k < ORDER && (#[trigger] old(self).lists()[k]).contains(idx as int)
                    ==> final(self).lists() == old(self).lists().update(
                    k,
                    old(self).lists()[k].remove(old(self).lists()[k].index_of(idx as int)),
                ),
            final(self).state(idx as int) == BlockState::Reserved,
            final(self).recorded_order(idx as int) == 0,
            forall|y: int|
                0 <= y < old(self).used().len() && y != idx
                    ==> #[trigger] final(self).same_record(*old(self), y),
    {
        let ghost before = *self;
        let order: usize = self.meta[idx].order as usize;
        let prev: usize = self.meta[idx].prev;
        let next: usize = self.meta[idx].next;
        let ghost k0 = choose|k: int|
            0 <= k < ORDER && (#[trigger] before.lists()[k]).contains(idx as int);
        let ghost list = before.lists@[k0];
        let ghost at = list.index_of(idx as int);
        let ghost shorter = list.remove(at);
        proof {
            assert(before.meta.len() == before.meta@.len());
            assert(node_ok(before.meta@, before.lists@, k0, at));
            assert(order == k0);
            if at > 0 {
                assert(node_ok(before.meta@, before.lists@, k0, at - 1));
            }
            if at + 1 < list.len() {
                assert(node_ok(before.meta@, before.lists@, k0, at + 1));
            }
        }
        if prev != NIL {
            self.meta[prev].next = next;
        } else {
            self.area[order].head = next;
        }
        if next != NIL {
            self.meta[next].prev = prev;
        }
        self.area[order].len -= 1;
        self.meta.set(idx, BlockMeta::reserved());
        proof {
            self.lists@ = before.lists@.update(k0, shorter);
            assert(forall|i: int|
                0 <= i < shorter.len() ==> #[trigger] shorter[i] == if i < at {
                    list[i]
                } else {
                    list[i + 1]
                });
            assert forall|k: int, i: int|
                0 <= k < ORDER && 0 <= i < self.lists@[k].len() implies #[trigger] node_ok(
                self.meta@,
                self.lists@,
                k,
                i,
            ) by {
                if k == k0 {
                    if i < at {
                        assert(node_ok(before.meta@, before.lists@, k, i));
                    } else {
                        assert(node_ok(before.meta@, before.lists@, k, i + 1));
                    }
                } else {
                    assert(node_ok(before.meta@, before.lists@, k, i));
                }
            }
            assert forall|x: int| 0 <= x < self.meta@.len() implies #[trigger] listed(
                self.meta@,
                self.lists@,
                x,
            ) by {
                assert(listed(before.meta@, before.lists@, x));
                if x != idx && self.meta@[x].state == BlockState::Free && self.meta@[x].order
                    == k0 {
                    let i = list.index_of(x);
                    if i < at {
                        assert(shorter[i] == x);
                    } else {
                        assert(shorter[i - 1] == x);
                    }
                }
            }
        }
        assert(self.used() =~= before.used());
        proof {
            assert forall|k: int|
                0 <= k < ORDER && (#[trigger] before.lists()[k]).contains(idx as int) implies k
                == k0 by {
                let i = before.lists@[k].index_of(idx as int);
                assert(node_ok(before.meta@, before.lists@, k, i));
            }
        }
    }

    /// Take the head of the free list of the order out of it.
    /// Returns `None` when the list is empty.
    pub fn pop_free(&mut self, order: usize) -> (head: Option<usize>)
        requires
            old(self).wf(),
            order < ORDER,
        ensures
            final(self).wf(),
            final(self).used() == old(self).used(),
            match head {
                Some(idx) => {
                    &&& old(self).lists()[order as int].len() > 0
                    &&& idx == old(self).lists()[order as int][0]
                    &&& final(self).lists() == old(self).lists().update(
                        order as int,
                        old(self).lists()[order as int].drop_first(),
                    )
                    &&& final(self).state(idx as int) == BlockState::Reserved
                    &&& final(self).recorded_order(idx as int) == 0
                    &&& forall|y: int|
                        0 <= y < old(self).used().len() && y != idx
                            ==> #[trigger] final(self).same_record(*old(self), y)
                },
                None => {
                    &&& old(self).lists()[order as int].len() == 0
                    &&& final(self).lists() == old(self).lists()
                    &&& forall|y: int|
                        0 <= y < old(self).used().len() ==> #[trigger] final(self).same_record(
                            *old(self),
                            y,
                        )
                },
            },
    {
        let idx: usize = self.area[order].head;
        let ghost list = self.lists@[order as int];
        proof {
            assert(self.lists() == self.lists@);
            assert(self.meta.len() == self.meta@.len());
            if list.len() > 0 {
                assert(node_ok(self.meta@, self.lists@, order as int, 0));
                assert(list.contains(list[0]));
                assert(list.index_of(list[0]) == 0);
                assert(list.remove(0) =~= list.drop_first());
            }
        }
        if idx == NIL {
            return None;
        }
        self.unlink_free(idx);
        Some(idx)
    }
}

} // verus!
