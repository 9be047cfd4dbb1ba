//! A buddy allocator of numbered frames. It never touches the memory that the numbers
//! stand for.

use crate::bits;
use crate::blocks;
use crate::blocks::Block;
use crate::frame_model;
use crate::frame_model::FrameView;
use crate::layout::Layout;
use crate::sorted::SortedSet;
use core::ops::Range;
use vstd::arithmetic::power2::*;
use vstd::prelude::*;

verus! {

/// A frame allocator with `ORDER` orders: it hands out runs of up to `2^(ORDER - 1)` frames.
///
/// A run has a power of two of frames, and starts at a multiple of that number.
pub struct FrameAllocator<const ORDER: usize> {
    /// The first frames of the free blocks, by order.
    free: Vec<SortedSet>,
    /// The runs in the hands of callers.
    live: Ghost<Map<int, nat>>,
}

/// The sets of first frames as a set of blocks.
spec fn block_set(free: Seq<SortedSet>) -> Set<Block> {
    Set::new(|b: Block| b.order < free.len() && free[b.order as int]@.contains(b.addr))
}

impl<const ORDER: usize> View for FrameAllocator<ORDER> {
    type V = FrameView;

    closed spec fn view(&self) -> FrameView {
        FrameView { free: block_set(self.free@), live: self.live@ }
    }
}

impl<const ORDER: usize> FrameAllocator<ORDER> {
    /// The allocator is in order: what every operation relies on and keeps.
    pub closed spec fn wf(self) -> bool {
        &&& self.free@.len() == ORDER
        &&& self@.inv(ORDER as nat)
    }

    /// What `wf` says of the model.
    pub proof fn lemma_wf(self)
        requires
            self.wf(),
        ensures
            self@.inv(ORDER as nat),
    {
    }

    /// An allocator without frames.
    pub fn new() -> (frames: Self)
        ensures
            frames.wf(),
            frames@ == (FrameView { free: Set::empty(), live: Map::empty() }),
    {
        let mut free: Vec<SortedSet> = Vec::new();
        let mut i: usize = 0;
        while i < ORDER
            invariant
                i <= ORDER,
                free@.len() == i,
                forall|k: int| 0 <= k < i ==> (#[trigger] free@[k])@ == Set::<int>::empty(),
            decreases ORDER - i,
        {
            free.push(SortedSet::new());
            i += 1;
        }
        let frames = FrameAllocator { free, live: Ghost(Map::empty()) };
        assert(frames@.free =~= Set::empty());
        frames
    }

    /// Make the block free.
    fn put(&mut self, addr: usize, order: usize)
        requires
            old(self).free@.len() == ORDER,
            order < ORDER,
        ensures
            final(self).free@.len() == ORDER,
            final(self)@ == (FrameView {
                free: old(self)@.free.insert(Block { addr: addr as int, order: order as nat }),
                ..old(self)@
            }),
    {
        let ghost before = *self;
        self.free[order].insert(addr);
        assert(self@.free =~= before@.free.insert(
            Block { addr: addr as int, order: order as nat },
        ));
    }

    /// Make the block not free. Returns whether it was.
    fn pull(&mut self, addr: usize, order: usize) -> (was: bool)
        requires
            old(self).free@.len() == ORDER,
            order < ORDER,
        ensures
            final(self).free@.len() == ORDER,
            was == old(self)@.free.contains(Block { addr: addr as int, order: order as nat }),
            final(self)@ == (FrameView {
                free: old(self)@.free.remove(Block { addr: addr as int, order: order as nat }),
                ..old(self)@
            }),
    {
        let ghost before = *self;
        let was: bool = self.free[order].remove(addr);
        assert(self@.free =~= before@.free.remove(
            Block { addr: addr as int, order: order as nat },
        ));
        was
    }

    /// Add the frames of `[start, end)`.
    pub fn add_frame(&mut self, start: usize, end: usize)
        requires
            old(self).wf(),
            ORDER > 0,
            start <= end,
            old(self)@.clear_of(start as int, end as int),
        ensures
            final(self).wf(),
            final(self)@ == (FrameView {
                free: old(self)@.free.union(
                    blocks::greedy(start as int, end as int, (ORDER - 1) as nat),
                ),
                ..old(self)@
            }),
    {
        let ghost v = self@;
        let ghost top = (ORDER - 1) as nat;
        proof {
            v.lemma_after_add(start as int, end as int, ORDER as nat);
        }
        let mut current: usize = start;
        while current < end
            invariant
                ORDER > 0,
                top == ORDER - 1,
                start <= current <= end,
                self.free@.len() == ORDER,
                self@.live == v.live,
                self@.free.union(blocks::greedy(current as int, end as int, top)) == v.free.union(
                    blocks::greedy(start as int, end as int, top),
                ),
            decreases end - current,
        {
            let room: usize = end - current;
            let by_room: usize = bits::floor_order(room);
            let by_address: usize = if current == 0 {
                by_room
            } else {
                bits::trailing_order(current)
            };
            let fit: usize = if by_address <= by_room {
                by_address
            } else {
                by_room
            };
            let order: usize = if fit <= ORDER - 1 {
                fit
            } else {
                ORDER - 1
            };
            let ghost before = self@;
            proof {
                let (c, r) = (current as int, room as int);
                if current == 0 {
                    lemma_pow2_pos(order as nat);
                    lemma_pow2_pos(by_room as nat);
                    vstd::arithmetic::div_mod::lemma_mod_multiples_basic(
                        0,
                        pow2(by_room as nat) as int,
                    );
                }
                bits::lemma_multiple_of_lower(c, order as nat, by_address as nat);
                bits::lemma_pow2_monotone(order as nat, by_room as nat);
                blocks::lemma_fitting_order_unique(c, r, top, order as nat);
            }
            self.put(current, order);
            proof {
                let b = Block { addr: current as int, order: order as nat };
                let next = b.end();
                assert(self@.free.union(blocks::greedy(next, end as int, top))
                    =~= before.free.union(blocks::greedy(current as int, end as int, top)));
            }
            current = current + bits::order_bytes(order);
        }
        assert(self@.free =~= self@.free.union(blocks::greedy(current as int, end as int, top)));
    }

    /// Add the frames of a range.
    pub fn insert(&mut self, range: Range<usize>)
        requires
            old(self).wf(),
            ORDER > 0,
            range.start <= range.end,
            old(self)@.clear_of(range.start as int, range.end as int),
        ensures
            final(self).wf(),
            final(self)@ == (FrameView {
                free: old(self)@.free.union(
                    blocks::greedy(range.start as int, range.end as int, (ORDER - 1) as nat),
                ),
                ..old(self)@
            }),
    {
        self.add_frame(range.start, range.end);
    }

    /// Cut the block of order `order` at `start` out of the free block of order `whole_order`
    /// at `whole`, and hand it over.
    fn cut_out(&mut self, start: usize, order: usize, whole: usize, whole_order: usize)
        requires
            old(self).wf(),
            order <= whole_order < ORDER,
            old(self)@.free.contains(Block { addr: whole as int, order: whole_order as nat }),
            (Block { addr: start as int, order: order as nat }).aligned(),
            (Block { addr: whole as int, order: whole_order as nat }).contains(
                Block { addr: start as int, order: order as nat },
            ),
        ensures
            final(self).wf(),
            final(self)@ == old(self)@.after_take(
                Block { addr: whole as int, order: whole_order as nat },
                Block { addr: start as int, order: order as nat },
            ),
    {
        let ghost v = self@;
        let ghost from = Block { addr: whole as int, order: whole_order as nat };
        let ghost part = Block { addr: start as int, order: order as nat };
        proof {
            v.lemma_after_take(from, part, ORDER as nat);
            assert(frame_model::all_frames(v.free, v.live, Set::empty()).contains(from));
            lemma_pow2_pos(from.order);
            bits::lemma_order_fits(from.order);
            frame_model::lemma_holder_is_ancestor(part, from);
            frame_model::lemma_siblings_step(part, from.order, from.order);
        }
        let _ = self.pull(whole, whole_order);
        assert(self@.free =~= v.free.remove(from).union(
            frame_model::siblings(part, from.order, from.order),
        ));
        let mut addr: usize = whole;
        let mut j: usize = whole_order;
        while j > order
            invariant
                order <= j <= whole_order < ORDER,
                whole_order < usize::BITS,
                self.free@.len() == ORDER,
                v.inv(ORDER as nat),
                v.free.contains(from),
                part == (Block { addr: start as int, order: order as nat }),
                from == (Block { addr: whole as int, order: whole_order as nat }),
                part.aligned(),
                from.contains(part),
                frame_model::ancestor(part, j as nat) == (Block {
                    addr: addr as int,
                    order: j as nat,
                }),
                self@ == (FrameView {
                    free: v.free.remove(from).union(
                        frame_model::siblings(part, j as nat, from.order),
                    ),
                    live: v.live,
                }),
            decreases j,
        {
            let ghost b = frame_model::ancestor(part, j as nat);
            let ghost half = frame_model::ancestor(part, (j - 1) as nat);
            let ghost before = self@;
            proof {
                frame_model::lemma_cut(v, from, part, j as nat, ORDER as nat);
                frame_model::lemma_ancestor(part, (j - 1) as nat);
                frame_model::lemma_siblings_step(part, (j - 1) as nat, from.order);
                blocks::lemma_buddies(half);
                blocks::lemma_halves(b);
                assert(frame_model::all_frames(
                    before.free,
                    v.live,
                    frame_model::only(b),
                ).contains(b));
            }
            j -= 1;
            let upper: usize = addr + bits::order_bytes(j);
            if start < upper {
                self.put(upper, j);
            } else {
                self.put(addr, j);
                addr = upper;
            }
            assert(self@.free =~= v.free.remove(from).union(
                frame_model::siblings(part, j as nat, from.order),
            ));
        }
        proof {
            self.live@ = v.live.insert(start as int, order as nat);
            assert(self@ =~= v.after_take(from, part));
        }
    }

    /// Allocate a run of at least `count` frames, and return the first of them.
    ///
    /// Returns `None` when no free block is large enough.
    pub fn allocate(&mut self, count: usize) -> (first: Option<usize>)
        requires
            old(self).wf(),
        ensures
            final(self).wf(),
            ({
                let order = bits::order_covering(count as int);
                match first {
                    Some(first) => {
                        let whole = old(self)@.next(order);
                        &&& old(self)@.can_serve(order)
                        &&& first == whole.addr
                        &&& final(self)@ == old(self)@.after_take(
                            whole,
                            Block { addr: first as int, order },
                        )
                    },
                    None => !old(self)@.can_serve(order) && final(self)@ == old(self)@,
                }
            }),
    {
        let order: usize = bits::ceil_order(count);
        self.alloc_order(order)
    }

    /// Allocate a run of at least `layout.size()` frames whose first frame is a multiple of
    /// `layout.align()`, and return that.
    ///
    /// Returns `None` when no free block is large enough.
    pub fn alloc_aligned(&mut self, layout: Layout) -> (first: Option<usize>)
        requires
            old(self).wf(),
        ensures
            final(self).wf(),
            ({
                let order = bits::order_covering(
                    vstd::math::max(layout.size() as int, layout.align() as int),
                );
                match first {
                    Some(first) => {
                        let whole = old(self)@.next(order);
                        &&& old(self)@.can_serve(order)
                        &&& first == whole.addr
                        &&& final(self)@ == old(self)@.after_take(
                            whole,
                            Block { addr: first as int, order },
                        )
                    },
                    None => !old(self)@.can_serve(order) && final(self)@ == old(self)@,
                }
            }),
    {
        let size: usize = layout.size();
        let align: usize = layout.align();
        let order: usize = bits::ceil_order(
            if size >= align {
                size
            } else {
                align
            },
        );
        self.alloc_order(order)
    }

    /// Allocate a run of `2^order` frames.
    fn alloc_order(&mut self, order: usize) -> (first: Option<usize>)
        requires
            old(self).wf(),
        ensures
            final(self).wf(),
            match first {
                Some(first) => {
                    let whole = old(self)@.next(order as nat);
                    &&& old(self)@.can_serve(order as nat)
                    &&& first == whole.addr
                    &&& final(self)@ == old(self)@.after_take(
                        whole,
                        Block { addr: first as int, order: order as nat },
                    )
                },
                None => !old(self)@.can_serve(order as nat) && final(self)@ == old(self)@,
            },
    {
        let ghost v = self@;
        let mut i: usize = order;
        while i < ORDER
            invariant
                self.wf(),
                self@ == v,
                *self == *old(self),
                order <= i,
                forall|b: Block| #[trigger]
                    v.free.contains(b) && b.order >= order ==> b.order >= i,
            decreases ORDER - i,
        {
            match self.free[i].first() {
                Some(addr) => {
                    proof {
                        let whole = Block { addr: addr as int, order: i as nat };
                        let part = Block { addr: addr as int, order: order as nat };
                        assert(v.free.contains(whole));
                        assert forall|c: Block| #[trigger]
                            v.free.contains(c) && c.order >= order implies whole.order < c.order
                            || (whole.order == c.order && whole.addr <= c.addr) by {}
                        assert(frame_model::serves(v.free, order as nat, whole));
                        v.lemma_next(order as nat, whole);
                        assert(frame_model::all_frames(v.free, v.live, Set::empty()).contains(
                            whole,
                        ));
                        bits::lemma_multiple_of_lower(whole.addr, order as nat, i as nat);
                        bits::lemma_pow2_monotone(order as nat, i as nat);
                        assert(part.aligned());
                    }
                    self.cut_out(addr, order, addr, i);
                    return Some(addr);
                },
                None => {},
            }
            i += 1;
        }
        proof {
            if v.can_serve(order as nat) {
                let b = v.next(order as nat);
                assert(frame_model::serves(v.free, order as nat, b));
                assert(v.free.contains(b));
            }
        }
        None
    }

    /// Allocate the run of at least `count` frames that starts at `start`, and return its
    /// first frame.
    ///
    /// Returns `None` when `start` is not a multiple of the length of the run, or when some
    /// of its frames are not free in one block.
    pub fn alloc_at(&mut self, start: usize, count: usize) -> (first: Option<usize>)
        requires
            old(self).wf(),
        ensures
            final(self).wf(),
            ({
                let part = Block {
                    addr: start as int,
                    order: bits::order_covering(count as int),
                };
                match first {
                    Some(first) => {
                        &&& first == start
                        &&& start as int % (pow2(part.order) as int) == 0
                        &&& part.aligned() && old(self)@.can_take(part)
                        &&& final(self)@ == old(self)@.after_take(old(self)@.holder(part), part)
                    },
                    None => {
                        &&& !(part.aligned() && old(self)@.can_take(part))
                        &&& final(self)@ == old(self)@
                    },
                }
            }),
    {
        let ghost v = self@;
        let order: usize = bits::ceil_order(count);
        let ghost part = Block { addr: start as int, order: order as nat };
        if order >= ORDER || order >= usize::BITS as usize {
            proof {
                if v.can_take(part) {
                    let b = v.holder(part);
                    assert(frame_model::holds(v.free, part, b));
                    assert(frame_model::all_frames(v.free, v.live, Set::empty()).contains(b));
                    lemma_pow2_pos(b.order);
                    bits::lemma_order_fits(b.order);
                }
            }
            return None;
        }
        proof {
            lemma_pow2_pos(order as nat);
        }
        if start % bits::order_bytes(order) != 0 {
            return None;
        }
        let mut i: usize = order;
        while i < ORDER && i < usize::BITS as usize
            invariant
                self.wf(),
                self@ == v,
                *self == *old(self),
                order <= i,
                part == (Block { addr: start as int, order: order as nat }),
                order == bits::order_covering(count as int),
                part.aligned(),
                forall|b: Block| #[trigger]
                    frame_model::holds(v.free, part, b) ==> b.order >= i,
            decreases ORDER - i,
        {
            proof {
                lemma_pow2_pos(i as nat);
            }
            let whole: usize = bits::align_down(start, bits::order_bytes(i));
            let ghost from = Block { addr: whole as int, order: i as nat };
            proof {
                frame_model::lemma_ancestor(part, i as nat);
                lemma_pow2_pos(part.order);
                blocks::lemma_nested(part, from);
            }
            if self.free[i].contains(whole) {
                proof {
                    assert(frame_model::holds(v.free, part, from));
                    v.lemma_holder(part, from, ORDER as nat);
                }
                self.cut_out(start, order, whole, i);
                return Some(start);
            }
            proof {
                assert forall|b: Block| #[trigger]
                    frame_model::holds(v.free, part, b) implies b.order >= i + 1 by {
                    assert(frame_model::all_frames(v.free, v.live, Set::empty()).contains(b));
                    frame_model::lemma_holder_is_ancestor(part, b);
                }
            }
            i += 1;
        }
        proof {
            if v.can_take(part) {
                let b = v.holder(part);
                assert(frame_model::holds(v.free, part, b));
                assert(frame_model::all_frames(v.free, v.live, Set::empty()).contains(b));
                lemma_pow2_pos(b.order);
                bits::lemma_order_fits(b.order);
            }
        }
        None
    }

    /// Give back the run that starts at `start`, where it was allocated for `count` frames.
    pub fn dealloc(&mut self, start: usize, count: usize)
        requires
            old(self).wf(),
            old(self)@.live.contains_key(start as int),
            old(self)@.live[start as int] == bits::order_covering(count as int),
        ensures
            final(self).wf(),
            final(self)@ == old(self)@.after_dealloc(start as int, ORDER as nat),
    {
        let ghost v = self@;
        let order: usize = bits::ceil_order(count);
        let ghost live = v.live.remove(start as int);
        let ghost b = Block { addr: start as int, order: order as nat };
        proof {
            v.lemma_after_dealloc(start as int, ORDER as nat);
            frame_model::lemma_take_back(v.free, v.live, start as int, ORDER as nat);
            assert(frame_model::all_frames(v.free, live, frame_model::only(b)).contains(b));
            self.live@ = live;
        }
        let mut current: usize = start;
        let mut grown: usize = order;
        while grown < ORDER - 1
            invariant
                order <= grown < ORDER,
                self.free@.len() == ORDER,
                self@.live == live,
                frame_model::sound(
                    self@.free,
                    live,
                    frame_model::only(Block { addr: current as int, order: grown as nat }),
                    ORDER as nat,
                ),
                frame_model::joined(
                    self@.free,
                    Block { addr: current as int, order: grown as nat },
                    ORDER as nat,
                ) == frame_model::joined(v.free, b, ORDER as nat),
            ensures
                grown + 1 < ORDER ==> !self@.free.contains(
                    (Block { addr: current as int, order: grown as nat }).buddy(),
                ),
            decreases ORDER - grown,
        {
            let ghost hand = Block { addr: current as int, order: grown as nat };
            let ghost before = self@;
            proof {
                assert(frame_model::all_frames(
                    before.free,
                    live,
                    frame_model::only(hand),
                ).contains(hand));
                lemma_pow2_pos(grown as nat);
                bits::lemma_order_fits(grown as nat);
            }
            let buddy: usize = blocks::buddy_of(current, grown);
            if !self.pull(buddy, grown) {
                assert(self@.free =~= before.free);
                break;
            }
            proof {
                frame_model::lemma_join(before.free, live, hand, ORDER as nat);
            }
            if buddy < current {
                current = buddy;
            }
            grown += 1;
        }
        self.put(current, grown);
        assert(self@ =~= v.after_dealloc(start as int, ORDER as nat));
    }
}

impl<const ORDER: usize> Default for FrameAllocator<ORDER> {
    fn default() -> (frames: Self)
        ensures
            frames.wf(),
            frames@ == (FrameView { free: Set::empty(), live: Map::empty() }),
    {
        Self::new()
    }
}

} // verus!
