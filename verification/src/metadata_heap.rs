//! A buddy allocator with explicit per-unit metadata, so that the state of a buddy is
//! found in one step.
//!
//! The allocator keeps one record per minimal unit (`2^MIN_ORDER` bytes), and sets aside
//! room for the records in front of the region it manages.

use crate::bits;
use crate::blocks;
use crate::blocks::Block;
use crate::laws;
use crate::layout::Layout;
use crate::model;
use crate::model::{Grant, HeapView};
use crate::region;
use crate::table::{BlockState, BlockTable};
use vstd::arithmetic::power2::*;
use vstd::prelude::*;

verus! {

/// Error returned by [`MetadataHeap::try_init`].
#[derive(Clone, Copy, Debug, PartialEq, Eq)]
pub enum InitError {
    /// Arithmetic overflow during region computation.
    Overflow,
    /// The supplied region is too small for even one allocation unit plus its metadata.
    TooSmall,
}

/// Error of the page-granular operations.
#[derive(Clone, Copy, Debug, PartialEq, Eq)]
pub enum AllocError {
    /// No sufficiently-sized free block available.
    NoMemory,
    /// The requested order is outside `[MIN_ORDER, ORDER)`.
    InvalidOrder,
}

/// Order of a page-granular allocation (block size = `2^order.0`).
#[derive(Clone, Copy, Debug, PartialEq, Eq)]
pub struct PageOrder(pub u8);

/// A handle returned by [`MetadataHeap::alloc_pages`].
#[derive(Clone, Copy, Debug, PartialEq, Eq)]
pub struct PageRun {
    /// Base address of the allocated block.
    pub base: usize,
    /// Order of the block.
    pub order: PageOrder,
}

/// A buddy allocator with explicit per-unit metadata.
///
/// # Type parameters
///
/// - `ORDER`: the number of orders; blocks have orders below it.
/// - `MIN_ORDER`: the order of the smallest block (`3` for 8 bytes, `12` for 4 KiB).
///   Must satisfy `MIN_ORDER < ORDER` and `ORDER <= 255`.
///
/// # Metadata layout
///
/// ```text
///   start         end    heap_start                    heap_end
///   | records ... |      | unit | unit | ...           |
/// ```
///
/// Block heads are recorded with their order; the other units of a block are `Reserved`.
pub struct MetadataHeap<const ORDER: usize, const MIN_ORDER: usize> {
    /// The records and the free lists.
    table: BlockTable<ORDER>,
    /// The area set aside for the records.
    start: usize,
    end: usize,
    /// The data region.
    heap_start: usize,
    heap_end: usize,
    /// Statistics.
    user: usize,
    allocated: usize,
    total: usize,
    /// The blocks in the hands of callers.
    live: Ghost<Map<int, Grant>>,
}

/// The lists of unit indices as lists of addresses.
spec fn placed(lists: Seq<Seq<int>>, lo: int, unit: int) -> Seq<Seq<int>> {
    Seq::new(
        lists.len(),
        |k: int| Seq::new(lists[k].len(), |i: int| lo + lists[k][i] * unit),
    )
}

/// The heap that the region `[start, start + size)` makes: as many units of order `min` as
/// fit behind their records, cut into the greatest blocks below order `orders`.
pub open spec fn carve(orders: nat, min: nat, start: int, size: int) -> Result<
    HeapView,
    InitError,
> {
    if min >= orders || orders > u8::MAX || pow2(min) < bits::word_bytes() {
        Err(InitError::TooSmall)
    } else if region::table_start(start) > usize::MAX || start + size > usize::MAX {
        Err(InitError::Overflow)
    } else {
        let n = region::most_units(start, size, min, size as nat);
        if n == 0 {
            Err(InitError::TooSmall)
        } else {
            let lo = region::data_start(start, min, n as int);
            let hi = lo + n * pow2(min);
            Ok(
                HeapView {
                    table_start: region::table_start(start),
                    table_end: region::table_start(start) + n * region::record_bytes(),
                    lo,
                    hi,
                    free: model::seeded(model::no_lists(orders), lo, hi),
                    live: Map::empty(),
                    user: 0,
                    allocated: 0,
                    total: hi - lo,
                },
            )
        }
    }
}

/// A carved heap is in order, lies in its region, and has at least one unit.
pub proof fn lemma_carve(orders: nat, min: nat, start: int, size: int)
    requires
        0 <= start,
        0 <= size,
    ensures
        carve(orders, min, start, size) matches Ok(v) ==> {
            &&& v.inv(min, region::record_bytes())
            &&& start <= v.table_start < v.table_end <= v.lo < v.hi <= start + size
            &&& v.lo % (pow2(min) as int) == 0
            &&& v.hi % (pow2(min) as int) == 0
            &&& v.free.len() == orders
        },
{
    if let Ok(v) = carve(orders, min, start, size) {
        let n = region::most_units(start, size, min, size as nat) as int;
        let unit = pow2(min) as int;
        let record = region::record_bytes();
        bits::lemma_word_limit();
        lemma_pow2_pos(min);
        region::lemma_most_units(start, size, min, size as nat);
        region::lemma_room_bound(start, size, min, n);
        bits::lemma_round_up(v.table_end, unit);
        vstd::arithmetic::div_mod::lemma_mod_multiples_basic(n, unit);
        bits::lemma_multiples_add(v.lo, n * unit, unit);
        assert(n * unit > 0 && n * record > 0 && (n * record) * unit == record * (n * unit))
            by (nonlinear_arith)
            requires
                n > 0,
                unit > 0,
                record > 0,
        ;
        model::lemma_seeded_sound(orders, v.lo, v.hi, min);
    }
}

/// The bytes that the block of a request has to cover: its size, its alignment and a
/// machine word.
pub open spec fn request_bytes(layout: Layout) -> int {
    vstd::math::max(
        vstd::math::max(layout.size() as int, layout.align() as int),
        bits::word_bytes(),
    )
}

/// The order of the block that serves a request: the least one that covers size,
/// alignment and a machine word, and is not below `min`.
pub open spec fn request_order(layout: Layout, min: nat) -> nat {
    vstd::math::max(bits::order_covering(request_bytes(layout)) as int, min as int) as nat
}

/// A block of the order that serves a request covers its size, and starts at multiples
/// of its alignment.
pub proof fn lemma_request_order(layout: Layout, min: nat)
    requires
        is_pow2(layout.align() as int),
    ensures
        layout.size() <= pow2(request_order(layout, min)),
        forall|a: int|
            a % (pow2(request_order(layout, min)) as int) == 0 ==> #[trigger] (a
                % layout.align() as int) == 0,
{
    let k = request_order(layout, min);
    let align = layout.align() as int;
    let bytes = request_bytes(layout);
    let order = bits::order_covering(bytes);
    bits::lemma_order_covering(bytes);
    bits::lemma_pow2_monotone(order, k);
    is_pow2_equiv(align);
    let j: nat = choose|j: nat| vstd::arithmetic::power::pow(2, j) == align;
    lemma_pow2(j);
    if j > k {
        lemma_pow2_strictly_increases(k, j);
    }
    assert forall|a: int| a % (pow2(k) as int) == 0 implies #[trigger] (a % align) == 0 by {
        bits::lemma_multiple_of_lower(a, j, k);
    }
}

/// Different units have different addresses.
proof fn lemma_placed_once(x: int, y: int, unit: int)
    requires
        unit > 0,
        x * unit == y * unit,
    ensures
        x == y,
{
    vstd::arithmetic::mul::lemma_mul_equality_converse(unit, x, y);
}

/// A list of addresses holds the address of a unit if the list of indices holds the unit.
proof fn lemma_placed_contains(lists: Seq<Seq<int>>, lo: int, unit: int, k: int, x: int)
    requires
        unit > 0,
        0 <= k < lists.len(),
    ensures
        placed(lists, lo, unit)[k].contains(lo + x * unit) == lists[k].contains(x),
{
    let there = placed(lists, lo, unit)[k];
    let a = lo + x * unit;
    if lists[k].contains(x) {
        assert(there[lists[k].index_of(x)] == a);
    }
    if there.contains(a) {
        let i = there.index_of(a);
        vstd::arithmetic::mul::lemma_mul_is_commutative(x, unit);
        vstd::arithmetic::mul::lemma_mul_is_commutative(lists[k][i], unit);
        lemma_placed_once(lists[k][i], x, unit);
        assert(lists[k][i] == x);
    }
}

/// Pushing a unit is pushing its address.
proof fn lemma_placed_push(lists: Seq<Seq<int>>, lo: int, unit: int, k: int, x: int)
    requires
        0 <= k < lists.len(),
    ensures
        placed(lists.update(k, seq![x] + lists[k]), lo, unit) == model::pushed(
            placed(lists, lo, unit),
            k,
            lo + x * unit,
        ),
{
    let there = placed(lists, lo, unit);
    let after = placed(lists.update(k, seq![x] + lists[k]), lo, unit);
    assert(after[k] =~= seq![lo + x * unit] + there[k]);
    assert(after =~= model::pushed(there, k, lo + x * unit));
}

/// Dropping a unit is dropping its address.
proof fn lemma_placed_drop(lists: Seq<Seq<int>>, lo: int, unit: int, k: int, x: int)
    requires
        unit > 0,
        0 <= k < lists.len(),
        lists[k].no_duplicates(),
        lists[k].contains(x),
    ensures
        placed(lists.update(k, lists[k].remove(lists[k].index_of(x))), lo, unit) == model::dropped(
            placed(lists, lo, unit),
            k,
            lo + x * unit,
        ),
{
    let there = placed(lists, lo, unit);
    let a = lo + x * unit;
    let at = lists[k].index_of(x);
    lemma_placed_contains(lists, lo, unit, k, x);
    let i = there[k].index_of(a);
    lemma_placed_once(lists[k][i], x, unit);
    assert(i == at);
    let after = placed(lists.update(k, lists[k].remove(at)), lo, unit);
    assert(after[k] =~= there[k].remove(at));
    assert(after =~= model::dropped(there, k, a));
}

impl<const ORDER: usize, const MIN_ORDER: usize> View for MetadataHeap<ORDER, MIN_ORDER> {
    type V = HeapView;

    closed spec fn view(&self) -> HeapView {
        HeapView {
            table_start: self.start as int,
            table_end: self.end as int,
            lo: self.heap_start as int,
            hi: self.heap_end as int,
            free: placed(
                self.table.lists(),
                self.heap_start as int,
                pow2(MIN_ORDER as nat) as int,
            ),
            live: self.live@,
            user: self.user as int,
            allocated: self.allocated as int,
            total: self.total as int,
        }
    }
}

impl<const ORDER: usize, const MIN_ORDER: usize> MetadataHeap<ORDER, MIN_ORDER> {
    /// The bytes in a unit.
    spec fn unit() -> int {
        pow2(MIN_ORDER as nat) as int
    }

    /// The records agree with the grants, and the data region is whole units.
    spec fn grounded(self) -> bool {
        &&& self.table.wf()
        &&& self.heap_start as int % Self::unit() == 0
        &&& self.heap_end - self.heap_start == self.table.used().len() * Self::unit()
        &&& self.heap_start < self.heap_end ==> MIN_ORDER < ORDER <= u8::MAX && MIN_ORDER
            < usize::BITS
        &&& forall|x: int|
            0 <= x < self.table.used().len() ==> #[trigger] self.table.used()[x] == self.order_at(
                x,
            )
    }

    /// The order of the grant that starts at a unit.
    spec fn order_at(self, x: int) -> Option<nat> {
        let a = self.heap_start + x * Self::unit();
        if self.live@.contains_key(a) {
            Some(self.live@[a].order)
        } else {
            None
        }
    }

    /// The heap is in order: what every operation relies on and keeps.
    pub closed spec fn wf(self) -> bool {
        &&& self.grounded()
        &&& self@.inv(MIN_ORDER as nat, region::record_bytes())
    }

    /// What `wf` says of the model.
    pub proof fn lemma_wf(self)
        requires
            self.wf(),
        ensures
            self@.inv(MIN_ORDER as nat, region::record_bytes()),
            self@.free.len() == ORDER,
            self@.hi <= usize::MAX,
            self@.lo < self@.hi ==> MIN_ORDER < ORDER <= u8::MAX && MIN_ORDER < usize::BITS,
    {
        self.table.lemma_lists();
    }

    /// What the record of the unit at an address says the unit is.
    pub closed spec fn unit_state(self, a: int) -> BlockState {
        self.table.state((a - self.heap_start) / Self::unit())
    }

    /// The order that the record of the unit at an address holds.
    pub closed spec fn unit_order(self, a: int) -> nat {
        self.table.recorded_order((a - self.heap_start) / Self::unit())
    }

    /// The records tell the truth: the head of a live block is `Used` and the head of a free
    /// block is `Free`, each with the order of its block, and every other unit of a block is
    /// `Reserved`.
    pub proof fn law_unit_records(self, a: int)
        requires
            self.wf(),
            self@.lo <= a < self@.hi,
            a % (pow2(MIN_ORDER as nat) as int) == 0,
        ensures
            self.unit_state(a) == BlockState::Used <==> self@.live.contains_key(a),
            self@.live.contains_key(a) ==> self.unit_order(a) == self@.live[a].order,
            self.unit_state(a) == BlockState::Free <==> model::free_blocks(self@.free).contains(
                Block { addr: a, order: self.unit_order(a) },
            ),
            forall|b: Block| #[trigger]
                model::free_blocks(self@.free).contains(b) && b.addr == a ==> self.unit_state(a)
                    == BlockState::Free && self.unit_order(a) == b.order,
            forall|b: Block| #[trigger]
                model::all_blocks(self@.free, self@.live, Set::empty()).contains(b) && b.covers(a)
                    && b.addr != a ==> self.unit_state(a) == BlockState::Reserved,
    {
        let x = self.lemma_unit_at(a);
        let all = model::all_blocks(self@.free, self@.live, Set::empty());
        self.table.lemma_record(x);
        self.table.lemma_lists();
        assert(self.table.used()[x] == self.order_at(x));
        lemma_pow2_pos(MIN_ORDER as nat);
        assert forall|k: int| 0 <= k < ORDER implies #[trigger] self@.free[k].contains(a)
            == self.table.lists()[k].contains(x) by {
            lemma_placed_contains(self.table.lists(), self@.lo, Self::unit(), k, x);
        }
        assert forall|b: Block| #[trigger]
            all.contains(b) && b.covers(a) && b.addr != a implies self.unit_state(a)
            == BlockState::Reserved by {
            if self.unit_state(a) == BlockState::Used {
                let c = Block { addr: a, order: self@.live[a].order };
                lemma_pow2_pos(c.order);
                assert(all.contains(c));
            }
            if self.unit_state(a) == BlockState::Free {
                let c = Block { addr: a, order: self.unit_order(a) };
                lemma_pow2_pos(c.order);
                assert(all.contains(c));
            }
        }
    }

    /// The unit that starts at an address, where one does.
    proof fn lemma_unit_at(self, a: int) -> (x: int)
        requires
            self.grounded(),
            self@.lo <= a < self@.hi,
            a % Self::unit() == 0,
        ensures
            0 <= x < self.table.used().len(),
            a == self.heap_start + x * Self::unit(),
            x == (a - self.heap_start) / Self::unit(),
    {
        let unit = Self::unit();
        let d = a - self.heap_start;
        let n = self.table.used().len() as int;
        lemma_pow2_pos(MIN_ORDER as nat);
        bits::lemma_multiples_add(a, self.heap_start as int, unit);
        vstd::arithmetic::div_mod::lemma_fundamental_div_mod(d, unit);
        let x = d / unit;
        vstd::arithmetic::mul::lemma_mul_is_commutative(x, unit);
        assert(0 <= x < n) by (nonlinear_arith)
            requires
                0 <= x * unit < n * unit,
                unit > 0,
        ;
        x
    }

    /// Map a data-region address to the index of its unit.
    pub fn addr_to_idx(&self, addr: usize) -> (idx: usize)
        requires
            MIN_ORDER < usize::BITS,
            self@.lo <= addr,
        ensures
            idx == self@.unit_index(MIN_ORDER as nat, addr as int),
            idx == (addr - self@.lo) / (pow2(MIN_ORDER as nat) as int),
            self.wf() && addr < self@.hi ==> {
                &&& idx < self@.units(MIN_ORDER as nat)
                &&& self@.unit_addr(MIN_ORDER as nat, idx as int) == addr - addr as int % (pow2(
                    MIN_ORDER as nat,
                ) as int)
            },
    {
        let offset: usize = addr - self.heap_start;
        proof {
            vstd::bits::lemma_usize_shr_is_div(offset, MIN_ORDER);
            if self.wf() {
                laws::law_units_and_addresses(
                    self@,
                    MIN_ORDER as nat,
                    region::record_bytes(),
                    0,
                    addr as int,
                );
            }
        }
        offset >> MIN_ORDER
    }

    /// Map the index of a unit to its data-region address.
    pub fn idx_to_addr(&self, idx: usize) -> (addr: usize)
        requires
            idx < self@.units(MIN_ORDER as nat),
        ensures
            addr == self@.unit_addr(MIN_ORDER as nat, idx as int),
            addr == self@.lo + idx * pow2(MIN_ORDER as nat),
            self@.lo <= addr && addr + pow2(MIN_ORDER as nat) <= self@.hi,
            self@.unit_index(MIN_ORDER as nat, addr as int) == idx,
            self.wf() ==> addr as int % (pow2(MIN_ORDER as nat) as int) == 0,
    {
        proof {
            let unit = Self::unit();
            let d = self@.hi - self@.lo;
            let n = d / unit;
            lemma_pow2_pos(MIN_ORDER as nat);
            vstd::arithmetic::div_mod::lemma_fundamental_div_mod(d, unit);
            assert(0 <= idx * unit && idx * unit + unit <= unit * n) by (nonlinear_arith)
                requires
                    0 <= idx <= n - 1,
                    unit > 0,
            ;
            bits::lemma_order_fits(MIN_ORDER as nat);
            vstd::bits::lemma_usize_shl_is_mul(idx, MIN_ORDER);
            vstd::arithmetic::div_mod::lemma_div_by_multiple(idx as int, unit);
            if self.wf() {
                laws::law_units_and_addresses(
                    self@,
                    MIN_ORDER as nat,
                    region::record_bytes(),
                    idx as int,
                    0,
                );
            }
        }
        self.heap_start + (idx << MIN_ORDER)
    }

    /// Put the block at the head of the free list of its order.
    fn push_block(&mut self, addr: usize, order: usize)
        requires
            old(self).grounded(),
            old(self)@.lo <= addr < old(self)@.hi,
            addr as int % Self::unit() == 0,
            order < ORDER,
            forall|k: int|
                0 <= k < ORDER ==> !(#[trigger] old(self)@.free[k]).contains(addr as int),
            !old(self)@.live.contains_key(addr as int),
        ensures
            final(self).grounded(),
            final(self)@ == (HeapView {
                free: model::pushed(old(self)@.free, order as int, addr as int),
                ..old(self)@
            }),
    {
        let ghost before = *self;
        let idx: usize = self.addr_to_idx(addr);
        proof {
            let x = before.lemma_unit_at(addr as int);
            let (lists, lo, unit) = (before.table.lists(), before@.lo, Self::unit());
            before.table.lemma_lists();
            lemma_pow2_pos(MIN_ORDER as nat);
            assert forall|k: int| 0 <= k < ORDER implies !(#[trigger] lists[k]).contains(x) by {
                lemma_placed_contains(lists, lo, unit, k, x);
                assert(!before@.free[k].contains(addr as int));
            }
            lemma_placed_push(lists, lo, unit, order as int, x);
        }
        self.table.push_free(idx, order);
    }

    /// Take the free block out of its list.
    fn unlink_block(&mut self, addr: usize, order: usize)
        requires
            old(self).grounded(),
            old(self)@.lo <= addr < old(self)@.hi,
            addr as int % Self::unit() == 0,
            order < ORDER,
            old(self)@.free[order as int].contains(addr as int),
        ensures
            final(self).grounded(),
            final(self)@ == (HeapView {
                free: model::dropped(old(self)@.free, order as int, addr as int),
                ..old(self)@
            }),
    {
        let ghost before = *self;
        let idx: usize = self.addr_to_idx(addr);
        proof {
            let x = before.lemma_unit_at(addr as int);
            let (lists, lo, unit) = (before.table.lists(), before@.lo, Self::unit());
            before.table.lemma_lists();
            lemma_pow2_pos(MIN_ORDER as nat);
            lemma_placed_contains(lists, lo, unit, order as int, x);
            lemma_placed_drop(lists, lo, unit, order as int, x);
        }
        self.table.unlink_free(idx);
    }

    /// Take the head of a free list. Returns `None` when the list is empty.
    fn pop_block(&mut self, order: usize) -> (addr: Option<usize>)
        requires
            old(self).grounded(),
            order < ORDER,
        ensures
            final(self).grounded(),
            match addr {
                Some(addr) => {
                    &&& old(self)@.free[order as int].len() > 0
                    &&& addr == old(self)@.free[order as int][0]
                    &&& old(self)@.lo <= addr < old(self)@.hi
                    &&& final(self)@ == (HeapView {
                        free: old(self)@.free.update(
                            order as int,
                            old(self)@.free[order as int].drop_first(),
                        ),
                        ..old(self)@
                    })
                },
                None => old(self)@.free[order as int].len() == 0 && final(self)@ == old(self)@,
            },
    {
        let ghost before = *self;
        proof {
            before.table.lemma_lists();
        }
        match self.table.pop_free(order) {
            Some(idx) => {
                proof {
                    let (lists, k) = (before.table.lists(), order as int);
                    assert(lists[k][0] == idx);
                    lemma_pow2_pos(MIN_ORDER as nat);
                    vstd::arithmetic::div_mod::lemma_div_by_multiple(
                        self.table.used().len() as int,
                        Self::unit(),
                    );
                    assert(self@.free =~= before@.free.update(k, before@.free[k].drop_first())) by {
                        assert(self@.free[k] =~= before@.free[k].drop_first());
                    }
                }
                Some(self.idx_to_addr(idx))
            },
            None => None,
        }
    }

    /// Grant the next block of the order, cutting it from a greater one where need be.
    /// Returns `None` when no free block is large enough.
    fn grant(&mut self, order: usize, size: Option<usize>) -> (addr: Option<usize>)
        requires
            old(self).wf(),
            MIN_ORDER <= order,
            size matches Some(n) ==> n <= pow2(order as nat),
        ensures
            final(self).wf(),
            match addr {
                Some(addr) => {
                    &&& old(self)@.fits(order as int)
                    &&& addr == old(self)@.pick(order as int)
                    &&& final(self)@ == old(self)@.after_alloc(
                        order as int,
                        match size {
                            Some(n) => Some(n as nat),
                            None => None,
                        },
                    )
                },
                None => !old(self)@.fits(order as int) && final(self)@ == old(self)@,
            },
    {
        let ghost before = *self;
        let ghost v = self@;
        let ghost asked: Option<nat> = match size {
            Some(n) => Some(n as nat),
            None => None,
        };
        proof {
            self.lemma_wf();
        }
        let mut i: usize = order;
        while i < ORDER && self.table.count(i) == 0
            invariant
                *self == before,
                before@ == v,
                before.wf(),
                order <= i,
                i <= ORDER || i == order,
                model::first_fit(v.free, order as int) == model::first_fit(v.free, i as int),
                v.free.len() == ORDER,
            decreases ORDER - i,
        {
            proof {
                assert(v.free[i as int].len() == 0);
            }
            i += 1;
        }
        if i >= ORDER {
            return None;
        }
        proof {
            assert(v.free[i as int].len() > 0);
            model::lemma_first_fit(v.free, order as int);
            v.lemma_after_alloc(order as int, asked, MIN_ORDER as nat, region::record_bytes());
        }
        let addr: usize = match self.pop_block(i) {
            Some(addr) => addr,
            None => return None,
        };
        let mut j: usize = i;
        proof {
            model::lemma_split_off_step(v.free, i as int, i as int);
        }
        while j > order
            invariant
                before.wf(),
                before@ == v,
                v.free.len() == ORDER,
                MIN_ORDER <= order <= j <= i < ORDER,
                i == model::first_fit(v.free, order as int),
                v.free[i as int].len() > 0,
                forall|m: int| order <= m < i ==> (#[trigger] v.free[m]).len() == 0,
                addr == v.free[i as int][0],
                v.lo <= addr < v.hi,
                self.grounded(),
                self@ == (HeapView { free: model::split_off(v.free, j as int, i as int), ..v }),
            decreases j,
        {
            proof {
                let whole = Block { addr: addr as int, order: j as nat };
                model::lemma_split_off(
                    v.free,
                    v.live,
                    j as int,
                    i as int,
                    v.lo,
                    v.hi,
                    MIN_ORDER as nat,
                );
                assert(model::all_blocks(self@.free, v.live, model::only(whole)).contains(whole));
                blocks::lemma_halves(whole);
                let right = whole.right();
                lemma_pow2_pos(right.order);
                bits::lemma_order_fits(right.order);
                bits::lemma_multiple_of_lower(right.addr, MIN_ORDER as nat, right.order);
                model::lemma_in_hand(
                    self@.free,
                    v.live,
                    whole,
                    right.addr,
                    v.lo,
                    v.hi,
                    MIN_ORDER as nat,
                );
                model::lemma_split_off_step(v.free, j - 1, i as int);
            }
            j -= 1;
            let upper: usize = addr + bits::order_bytes(j);
            self.push_block(upper, j);
        }
        let ghost split = *self;
        proof {
            let whole = Block { addr: addr as int, order: order as nat };
            model::lemma_split_off(
                v.free,
                v.live,
                order as int,
                i as int,
                v.lo,
                v.hi,
                MIN_ORDER as nat,
            );
            assert(model::all_blocks(self@.free, v.live, model::only(whole)).contains(whole));
            lemma_pow2_pos(order as nat);
            bits::lemma_order_fits(order as nat);
            bits::lemma_multiple_of_lower(whole.addr, MIN_ORDER as nat, order as nat);
            model::lemma_in_hand(
                self@.free,
                v.live,
                whole,
                whole.addr,
                v.lo,
                v.hi,
                MIN_ORDER as nat,
            );
        }
        let idx: usize = self.addr_to_idx(addr);
        proof {
            let x = split.lemma_unit_at(addr as int);
            let (lists, lo, unit) = (split.table.lists(), v.lo, Self::unit());
            split.table.lemma_lists();
            lemma_pow2_pos(MIN_ORDER as nat);
            assert forall|k: int| 0 <= k < ORDER implies !(#[trigger] lists[k]).contains(x) by {
                lemma_placed_contains(lists, lo, unit, k, x);
                assert(!split@.free[k].contains(addr as int));
            }
            model::lemma_requested_le_granted(v.live);
        }
        self.table.mark_used(idx, order);
        if let Some(n) = size {
            self.user += n;
        }
        self.allocated += bits::order_bytes(order);
        proof {
            let grant = Grant { order: order as nat, size: asked };
            self.live@ = v.live.insert(addr as int, grant);
            assert(self@ =~= v.after_alloc(order as int, asked));
            assert forall|x: int|
                0 <= x < self.table.used().len() implies #[trigger] self.table.used()[x]
                == self.order_at(x) by {
                assert(split.table.used()[x] == split.order_at(x));
                if x != idx {
                    if self.heap_start + x * Self::unit() == addr {
                        lemma_placed_once(x, idx as int, Self::unit());
                    }
                }
            }
        }
        Some(addr)
    }

    /// Take the granted block back, together with each buddy that is free.
    fn reclaim(&mut self, addr: usize, order: usize, size: Option<usize>)
        requires
            old(self).wf(),
            old(self)@.live.contains_key(addr as int),
            old(self)@.live[addr as int] == (Grant {
                order: order as nat,
                size: match size {
                    Some(n) => Some(n as nat),
                    None => None,
                },
            }),
        ensures
            final(self).wf(),
            final(self)@ == old(self)@.after_dealloc(addr as int),
    {
        let ghost before = *self;
        let ghost v = self@;
        let ghost live = v.live.remove(addr as int);
        let ghost b = Block { addr: addr as int, order: order as nat };
        proof {
            self.lemma_wf();
            v.lemma_after_dealloc(addr as int, MIN_ORDER as nat, region::record_bytes());
            model::lemma_take_back(v.free, v.live, b.addr, v.lo, v.hi, MIN_ORDER as nat);
            assert(model::live_blocks(v.live).contains(b));
            assert(model::all_blocks(v.free, v.live, Set::empty()).contains(b));
            lemma_pow2_pos(order as nat);
            bits::lemma_order_fits(order as nat);
            bits::lemma_multiple_of_lower(b.addr, MIN_ORDER as nat, order as nat);
        }
        let idx: usize = self.addr_to_idx(addr);
        proof {
            let x = before.lemma_unit_at(addr as int);
            assert(before.table.used()[x] == before.order_at(x));
        }
        self.table.mark_reserved(idx);
        proof {
            self.live@ = live;
            assert(self@ =~= (HeapView { live, ..v }));
            assert forall|x: int|
                0 <= x < self.table.used().len() implies #[trigger] self.table.used()[x]
                == self.order_at(x) by {
                assert(before.table.used()[x] == before.order_at(x));
                if x != idx {
                    if self.heap_start + x * Self::unit() == addr {
                        lemma_placed_once(x, idx as int, Self::unit());
                    }
                }
            }
        }
        let mut current: usize = addr;
        let mut grown: usize = order;
        while grown < ORDER - 1
            invariant
                order <= grown < ORDER,
                MIN_ORDER <= grown,
                v.free.len() == ORDER,
                self.grounded(),
                self@ == (HeapView { free: self@.free, live, ..v }),
                self@.free.len() == ORDER,
                model::sound(
                    self@.free,
                    live,
                    model::only(Block { addr: current as int, order: grown as nat }),
                    v.lo,
                    v.hi,
                    MIN_ORDER as nat,
                ),
                model::coalesce(self@.free, current as int, grown as nat) == model::coalesce(
                    v.free,
                    addr as int,
                    order as nat,
                ),
            ensures
                grown + 1 < ORDER ==> !self@.free[grown as int].contains(
                    blocks::buddy_addr(current as int, grown as nat),
                ),
            decreases ORDER - grown,
        {
            let ghost hand = Block { addr: current as int, order: grown as nat };
            let ghost all = model::all_blocks(self@.free, live, model::only(hand));
            proof {
                assert(all.contains(hand));
                lemma_pow2_pos(grown as nat);
                bits::lemma_order_fits(grown as nat);
                if self@.free[grown as int].contains(hand.buddy().addr) {
                    assert(model::free_blocks(self@.free).contains(hand.buddy()));
                    assert(all.contains(hand.buddy()));
                }
            }
            let buddy: usize = blocks::buddy_of(current, grown);
            if buddy < self.heap_start || buddy >= self.heap_end {
                break;
            }
            let buddy_idx: usize = self.addr_to_idx(buddy);
            proof {
                blocks::lemma_buddies(hand);
                bits::lemma_multiple_of_lower(buddy as int, MIN_ORDER as nat, grown as nat);
                let x = self.lemma_unit_at(buddy as int);
                self.table.lemma_lists();
                lemma_pow2_pos(MIN_ORDER as nat);
                lemma_placed_contains(
                    self.table.lists(),
                    self@.lo,
                    Self::unit(),
                    grown as int,
                    x,
                );
            }
            if !self.table.is_free(buddy_idx, grown) {
                break;
            }
            proof {
                model::lemma_join(self@.free, live, hand, v.lo, v.hi, MIN_ORDER as nat);
            }
            self.unlink_block(buddy, grown);
            if buddy < current {
                current = buddy;
            }
            grown += 1;
        }
        proof {
            let hand = Block { addr: current as int, order: grown as nat };
            let all = model::all_blocks(self@.free, live, model::only(hand));
            assert(all.contains(hand));
            lemma_pow2_pos(grown as nat);
            bits::lemma_multiple_of_lower(hand.addr, MIN_ORDER as nat, grown as nat);
            model::lemma_in_hand(
                self@.free,
                live,
                hand,
                hand.addr,
                v.lo,
                v.hi,
                MIN_ORDER as nat,
            );
        }
        self.push_block(current, grown);
        if let Some(n) = size {
            self.user -= n;
        }
        self.allocated -= bits::order_bytes(order);
        assert(self@ =~= v.after_dealloc(addr as int));
    }

    /// Create an uninitialised, empty allocator.
    ///
    /// Call [`try_init`](Self::try_init) before using any allocation method.
    pub fn new() -> (heap: Self)
        ensures
            heap.wf(),
            heap@ == HeapView::nothing(ORDER as nat),
    {
        let heap = MetadataHeap {
            table: BlockTable::new(),
            start: 0,
            end: 0,
            heap_start: 0,
            heap_end: 0,
            user: 0,
            allocated: 0,
            total: 0,
            live: Ghost(Map::empty()),
        };
        proof {
            assert(heap@.free =~= model::no_lists(ORDER as nat)) by {
                assert forall|k: int| 0 <= k < ORDER implies #[trigger] heap@.free[k]
                    =~= Seq::<int>::empty() by {}
            }
            lemma_pow2_pos(MIN_ORDER as nat);
            HeapView::lemma_nothing(ORDER as nat, MIN_ORDER as nat, region::record_bytes());
        }
        heap
    }

    /// Alias for [`new`](Self::new).
    pub fn empty() -> (heap: Self)
        ensures
            heap.wf(),
            heap@ == HeapView::nothing(ORDER as nat),
    {
        Self::new()
    }

    /// Initialise the allocator with the memory region `[start, start + size)`, which is
    /// divided into the area of the metadata records and the data region behind it.
    ///
    /// The allocator must not hold free blocks of an earlier region.
    ///
    /// # Errors
    ///
    /// Returns [`InitError::TooSmall`] if the type parameters make no allocator, or if the
    /// region cannot accommodate at least one allocation unit with its metadata, and
    /// [`InitError::Overflow`] on arithmetic overflow. The allocator is then unchanged.
    pub fn try_init(&mut self, start: usize, size: usize) -> (result: Result<(), InitError>)
        requires
            old(self).wf(),
            MIN_ORDER < ORDER <= u8::MAX ==> MIN_ORDER < usize::BITS,
            carve(ORDER as nat, MIN_ORDER as nat, start as int, size as int) is Ok
                ==> old(self)@.free == model::no_lists(ORDER as nat),
        ensures
            final(self).wf(),
            match carve(ORDER as nat, MIN_ORDER as nat, start as int, size as int) {
                Ok(carved) => result == Ok::<(), InitError>(()) && final(self)@ == carved,
                Err(error) => result == Err::<(), InitError>(error) && final(self)@ == old(self)@,
            },
    {
        let ghost (s, z, k) = (start as int, size as int, MIN_ORDER as nat);
        if MIN_ORDER >= ORDER {
            return Err(InitError::TooSmall);
        }
        if ORDER > u8::MAX as usize {
            return Err(InitError::TooSmall);
        }
        let unit: usize = bits::order_bytes(MIN_ORDER);
        if unit < bits::word_size() {
            return Err(InitError::TooSmall);
        }
        let table: usize = match bits::align_up(start, bits::word_size()) {
            Some(aligned) => aligned,
            None => return Err(InitError::Overflow),
        };
        let region_end: usize = match start.checked_add(size) {
            Some(end) => end,
            None => return Err(InitError::Overflow),
        };
        let data_end: usize = bits::align_down(region_end, unit);
        let n: usize = region::count_units(start, size, MIN_ORDER, table, data_end);
        if n == 0 {
            return Err(InitError::TooSmall);
        }
        let ghost carved = carve(ORDER as nat, k, s, z)->Ok_0;
        proof {
            lemma_carve(ORDER as nat, k, s, z);
            region::lemma_most_units(s, z, k, size as nat);
            region::lemma_room_bound(s, z, k, n as int);
            bits::lemma_round_up(table + n * region::record_bytes(), unit as int);
            self.lemma_wf();
        }
        let table_end: usize = table + n * region::record_size();
        let heap_start: usize = match bits::align_up(table_end, unit) {
            Some(aligned) => aligned,
            None => return Err(InitError::Overflow),
        };
        let heap_end: usize = heap_start + n * unit;
        proof {
            assert forall|i: int| 0 <= i < ORDER implies (#[trigger] self.table.lists()[i]).len()
                == 0 by {
                assert(self@.free[i].len() == 0);
            }
        }
        self.table.lay_out(n);
        self.start = table;
        self.end = table_end;
        self.heap_start = heap_start;
        self.heap_end = heap_end;
        proof {
            self.live@ = Map::empty();
            self.table.lemma_lists();
            assert(self@.free =~= model::no_lists(ORDER as nat)) by {
                assert forall|i: int| 0 <= i < ORDER implies #[trigger] self@.free[i]
                    =~= Seq::<int>::empty() by {}
            }
            model::lemma_no_lists(ORDER as nat);
        }
        let ghost blank = self@;
        let mut current: usize = heap_start;
        while heap_end - current >= unit
            invariant
                MIN_ORDER < ORDER <= u8::MAX,
                MIN_ORDER < usize::BITS,
                k == MIN_ORDER,
                unit == pow2(k),
                unit > 0,
                heap_start == carved.lo,
                heap_end == carved.hi,
                carved.free == model::seeded(model::no_lists(ORDER as nat), carved.lo, carved.hi),
                0 < heap_start <= current <= heap_end,
                current as int % unit as int == 0,
                heap_end as int % unit as int == 0,
                self.grounded(),
                blank.lo == heap_start,
                blank.hi == heap_end,
                blank.live == Map::<int, Grant>::empty(),
                self@ == (HeapView { free: self@.free, ..blank }),
                self@.free.len() == ORDER,
                model::seeded(self@.free, current as int, heap_end as int) == carved.free,
                forall|b: Block| #[trigger]
                    model::free_blocks(self@.free).contains(b) ==> b.addr < current,
            decreases heap_end - current,
        {
            let room: usize = heap_end - current;
            let by_address: usize = bits::trailing_order(current);
            let by_room: usize = bits::floor_order(room);
            let fit: usize = if by_address <= by_room {
                by_address
            } else {
                by_room
            };
            let order: usize = if fit <= ORDER - 1 {
                fit
            } else {
                ORDER - 1
            };
            proof {
                let (c, r, top) = (current as int, room as int, (ORDER - 1) as nat);
                bits::lemma_multiple_of_lower(c, order as nat, by_address as nat);
                bits::lemma_pow2_monotone(order as nat, by_room as nat);
                blocks::lemma_fitting_order_unique(c, r, top, order as nat);
                blocks::lemma_fitting_order_at_least(c, r, top, k);
                lemma_pow2_pos(order as nat);
                bits::lemma_multiple_of_lower(c, k, order as nat);
                bits::lemma_multiples_add(c, pow2(order as nat) as int, unit as int);
                assert forall|i: int| 0 <= i < ORDER implies !(#[trigger] self@.free[i]).contains(
                    c,
                ) by {
                    if self@.free[i].contains(c) {
                        let b = Block { addr: c, order: i as nat };
                        assert(model::free_blocks(self@.free).contains(b));
                    }
                }
                model::lemma_pushed(self@.free, order as int, c);
            }
            self.push_block(current, order);
            current = current + bits::order_bytes(order);
        }
        proof {
            bits::lemma_multiples_apart(current as int, heap_end as int, unit as int);
        }
        self.total = heap_end - heap_start;
        self.user = 0;
        self.allocated = 0;
        assert(self@ =~= carved);
        Ok(())
    }

    /// The order of the block that serves a request: the least that covers it and is not
    /// below `MIN_ORDER`.
    ///
    /// Returns `Err(())` if the request exceeds the largest block.
    pub fn layout_order(&self, layout: Layout) -> (result: Result<usize, ()>)
        ensures
            match result {
                Ok(order) => {
                    &&& bits::order_covering(request_bytes(layout)) < ORDER
                    &&& order == request_order(layout, MIN_ORDER as nat)
                    &&& MIN_ORDER < ORDER ==> order < ORDER
                },
                Err(()) => bits::order_covering(request_bytes(layout)) >= ORDER,
            },
            ORDER > 0 ==> (result is Err <==> request_bytes(layout) > pow2((ORDER - 1) as nat)),
            result is Err <==> ORDER == 0 || layout.size() > pow2((ORDER - 1) as nat)
                || layout.align() > pow2((ORDER - 1) as nat) || usize::BITS as int / 8 > pow2(
                (ORDER - 1) as nat,
            ),
            MIN_ORDER < ORDER ==> (result is Err <==> request_order(layout, MIN_ORDER as nat)
                >= ORDER),
    {
        proof {
            if ORDER > 0 {
                bits::lemma_order_covering_exceeds(request_bytes(layout), (ORDER - 1) as nat);
            }
        }
        let order: usize = bits::ceil_order(self.request_bytes(layout));
        if order >= ORDER {
            return Err(());
        }
        if order >= MIN_ORDER {
            Ok(order)
        } else {
            Ok(MIN_ORDER)
        }
    }

    /// The order of the block that serves a request, whether the allocator has such blocks
    /// or not.
    pub fn order_from_layout(&self, layout: Layout) -> (order: usize)
        ensures
            order == request_order(layout, MIN_ORDER as nat),
    {
        let order: usize = bits::ceil_order(self.request_bytes(layout));
        if order >= MIN_ORDER {
            order
        } else {
            MIN_ORDER
        }
    }

    /// The bytes that the block of a request has to cover.
    fn request_bytes(&self, layout: Layout) -> (bytes: usize)
        ensures
            bytes == request_bytes(layout),
    {
        let size: usize = layout.size();
        let align: usize = layout.align();
        let word: usize = bits::word_size();
        let least: usize = if size >= align {
            size
        } else {
            align
        };
        if least >= word {
            least
        } else {
            word
        }
    }

    /// Allocate a block satisfying `layout`, and return its address.
    ///
    /// Returns `Err(())` when no suitably-sized free block is available.
    pub fn allocate(&mut self, layout: Layout) -> (result: Result<usize, ()>)
        requires
            old(self).wf(),
        ensures
            final(self).wf(),
            match result {
                Ok(addr) => {
                    let k = request_order(layout, MIN_ORDER as nat) as int;
                    &&& old(self)@.fits(k)
                    &&& addr == old(self)@.pick(k)
                    &&& final(self)@ == old(self)@.after_alloc(k, Some(layout.size() as nat))
                    &&& final(self)@.live == old(self)@.live.insert(
                        addr as int,
                        Grant { order: k as nat, size: Some(layout.size() as nat) },
                    )
                    &&& final(self)@.user == old(self)@.user + layout.size()
                    &&& final(self)@.allocated == old(self)@.allocated + pow2(k as nat)
                    &&& final(self)@.total == old(self)@.total
                    &&& addr != 0
                    &&& old(self)@.lo <= addr && addr + layout.size() <= old(self)@.hi
                    &&& addr as int % layout.align() as int == 0
                },
                Err(()) => {
                    &&& !old(self)@.fits(request_order(layout, MIN_ORDER as nat) as int)
                    &&& final(self)@ == old(self)@
                },
            },
    {
        let ghost v = self@;
        let size: usize = layout.size();
        proof {
            self.lemma_wf();
            lemma_request_order(layout, MIN_ORDER as nat);
        }
        match self.layout_order(layout) {
            Ok(order) => match self.grant(order, Some(size)) {
                Some(addr) => {
                    proof {
                        v.lemma_after_alloc(
                            order as int,
                            Some(size as nat),
                            MIN_ORDER as nat,
                            region::record_bytes(),
                        );
                        let after = self@;
                        let b = Block { addr: addr as int, order: order as nat };
                        assert(model::live_blocks(after.live).contains(b));
                        assert(model::all_blocks(after.free, after.live, Set::empty()).contains(b));
                        lemma_pow2_pos(order as nat);
                    }
                    Ok(addr)
                },
                None => Err(()),
            },
            Err(()) => Err(()),
        }
    }

    /// Deallocate a block previously returned by [`allocate`](Self::allocate).
    ///
    /// `addr` and `layout` must match an allocation that is still live.
    pub fn dealloc(&mut self, addr: usize, layout: Layout)
        requires
            old(self).wf(),
            old(self)@.live.contains_key(addr as int),
            old(self)@.live[addr as int] == (Grant {
                order: request_order(layout, MIN_ORDER as nat),
                size: Some(layout.size() as nat),
            }),
        ensures
            final(self).wf(),
            final(self)@ == old(self)@.after_dealloc(addr as int),
            final(self)@.live == old(self)@.live.remove(addr as int),
            final(self)@.user == old(self)@.user - layout.size(),
            final(self)@.allocated == old(self)@.allocated - pow2(
                request_order(layout, MIN_ORDER as nat),
            ),
            final(self)@.total == old(self)@.total,
    {
        // The order that the record of the block holds.
        let order: usize = self.order_from_layout(layout);
        let size: usize = layout.size();
        self.reclaim(addr, order, Some(size));
    }

    /// The order of the live allocation at `addr`; `None` where there is none.
    pub fn live_order(&self, addr: usize) -> (order: Option<usize>)
        requires
            self.wf(),
        ensures
            match order {
                Some(order) => self@.live.contains_key(addr as int) && order
                    == self@.live[addr as int].order,
                None => !self@.live.contains_key(addr as int),
            },
    {
        proof {
            self.lemma_wf();
            if self@.live.contains_key(addr as int) {
                let b = Block { addr: addr as int, order: self@.live[addr as int].order };
                assert(model::live_blocks(self@.live).contains(b));
                assert(model::all_blocks(self@.free, self@.live, Set::empty()).contains(b));
                lemma_pow2_pos(b.order);
                bits::lemma_multiple_of_lower(b.addr, MIN_ORDER as nat, b.order);
            }
        }
        if addr < self.heap_start || addr >= self.heap_end {
            return None;
        }
        if addr % bits::order_bytes(MIN_ORDER) != 0 {
            return None;
        }
        let idx: usize = self.addr_to_idx(addr);
        proof {
            let x = self.lemma_unit_at(addr as int);
            assert(self.table.used()[x] == self.order_at(x));
        }
        self.table.used_order(idx)
    }

    /// Total bytes requested by the user (sum of `layout.size()`).
    pub fn stats_alloc_user(&self) -> (bytes: usize)
        ensures
            bytes == self@.user,
    {
        self.user
    }

    /// Total bytes actually carved from the heap (power-of-two rounded).
    pub fn stats_alloc_actual(&self) -> (bytes: usize)
        ensures
            bytes == self@.allocated,
    {
        self.allocated
    }

    /// Total usable bytes in the data region.
    pub fn stats_total_bytes(&self) -> (bytes: usize)
        ensures
            bytes == self@.total,
    {
        self.total
    }

    /// Allocate a single block at the given order.
    ///
    /// The order must satisfy `MIN_ORDER <= order.0 < ORDER`.
    pub fn alloc_pages(&mut self, order: PageOrder) -> (result: Result<PageRun, AllocError>)
        requires
            old(self).wf(),
        ensures
            final(self).wf(),
            match result {
                Ok(run) => {
                    &&& MIN_ORDER <= order.0 < ORDER
                    &&& old(self)@.fits(order.0 as int)
                    &&& run.base == old(self)@.pick(order.0 as int)
                    &&& run.order == order
                    &&& final(self)@ == old(self)@.after_alloc(order.0 as int, None)
                    &&& final(self)@.live == old(self)@.live.insert(
                        run.base as int,
                        Grant { order: order.0 as nat, size: None },
                    )
                    &&& final(self)@.user == old(self)@.user
                    &&& final(self)@.allocated == old(self)@.allocated + pow2(order.0 as nat)
                    &&& final(self)@.total == old(self)@.total
                    &&& run.base != 0
                    &&& run.base as int % (pow2(order.0 as nat) as int) == 0
                    &&& old(self)@.lo <= run.base && run.base + pow2(order.0 as nat)
                        <= old(self)@.hi
                },
                Err(AllocError::InvalidOrder) => {
                    &&& !(MIN_ORDER <= order.0 < ORDER)
                    &&& final(self)@ == old(self)@
                },
                Err(AllocError::NoMemory) => {
                    &&& MIN_ORDER <= order.0 < ORDER
                    &&& !old(self)@.fits(order.0 as int)
                    &&& final(self)@ == old(self)@
                },
            },
    {
        let target: usize = order.0 as usize;
        if target < MIN_ORDER || target >= ORDER {
            return Err(AllocError::InvalidOrder);
        }
        let ghost v = self@;
        proof {
            self.lemma_wf();
        }
        match self.grant(target, None) {
            Some(base) => {
                proof {
                    v.lemma_after_alloc(
                        target as int,
                        None,
                        MIN_ORDER as nat,
                        region::record_bytes(),
                    );
                    let after = self@;
                    let b = Block { addr: base as int, order: target as nat };
                    assert(model::live_blocks(after.live).contains(b));
                    assert(model::all_blocks(after.free, after.live, Set::empty()).contains(b));
                    lemma_pow2_pos(target as nat);
                }
                Ok(PageRun { base, order })
            },
            None => Err(AllocError::NoMemory),
        }
    }

    /// Deallocate a block previously returned by [`alloc_pages`](Self::alloc_pages).
    ///
    /// `run` must match an `alloc_pages` call, and must not already be freed.
    pub fn dealloc_pages(&mut self, run: PageRun)
        requires
            old(self).wf(),
            old(self)@.live.contains_key(run.base as int),
            old(self)@.live[run.base as int] == (Grant { order: run.order.0 as nat, size: None }),
        ensures
            final(self).wf(),
            final(self)@ == old(self)@.after_dealloc(run.base as int),
            final(self)@.live == old(self)@.live.remove(run.base as int),
            final(self)@.user == old(self)@.user,
            final(self)@.allocated == old(self)@.allocated - pow2(run.order.0 as nat),
            final(self)@.total == old(self)@.total,
    {
        self.reclaim(run.base, run.order.0 as usize, None);
    }

    /// Return count of free blocks per order (histogram).
    pub fn free_block_counts(&self) -> (counts: [usize; ORDER])
        requires
            self.wf(),
        ensures
            forall|k: int| 0 <= k < ORDER ==> #[trigger] counts@[k] == self@.free[k].len(),
    {
        proof {
            self.lemma_wf();
        }
        let mut counts: [usize; ORDER] = [0usize;ORDER];
        let mut i: usize = 0;
        while i < ORDER
            invariant
                i <= ORDER,
                self.wf(),
                self@.free.len() == ORDER,
                forall|k: int| 0 <= k < i ==> #[trigger] counts@[k] == self@.free[k].len(),
            decreases ORDER - i,
        {
            counts[i] = self.table.count(i);
            i += 1;
        }
        counts
    }
}

impl<const ORDER: usize, const MIN_ORDER: usize> Default for MetadataHeap<ORDER, MIN_ORDER> {
    fn default() -> (heap: Self)
        ensures
            heap.wf(),
            heap@ == HeapView::nothing(ORDER as nat),
    {
        Self::new()
    }
}

} // verus!
