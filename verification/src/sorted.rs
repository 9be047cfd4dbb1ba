//! A set of numbers, kept in ascending order.

use vstd::prelude::*;

verus! {

/// A set of numbers whose least member is found in one step.
pub struct SortedSet {
    items: Vec<usize>,
}

/// Each member is greater than those before it.
spec fn ascending(items: Seq<usize>) -> bool {
    forall|i: int, j: int| 0 <= i < j < items.len() ==> items[i] < items[j]
}

impl View for SortedSet {
    type V = Set<int>;

    closed spec fn view(&self) -> Set<int> {
        Set::new(
            |a: int|
                exists|i: int| 0 <= i < self.items@.len() && #[trigger] self.items@[i] == a,
        )
    }
}

impl SortedSet {
    #[verifier::type_invariant]
    spec fn wf(self) -> bool {
        ascending(self.items@)
    }

    /// The empty set.
    pub fn new() -> (set: Self)
        ensures
            set@ == Set::<int>::empty(),
    {
        let set = SortedSet { items: Vec::new() };
        assert(set@ =~= Set::<int>::empty());
        set
    }

    /// The least member; `None` where there is none.
    pub fn first(&self) -> (least: Option<usize>)
        ensures
            match least {
                Some(a) => self@.contains(a as int) && forall|b: int| #[trigger]
                    self@.contains(b) ==> a <= b,
                None => self@ == Set::<int>::empty(),
            },
    {
        proof {
            use_type_invariant(self);
        }
        if self.items.len() == 0 {
            assert(self@ =~= Set::<int>::empty());
            None
        } else {
            Some(self.items[0])
        }
    }

    /// The number of members below `value`.
    fn position(&self, value: usize) -> (at: usize)
        ensures
            at <= self.items@.len(),
            forall|i: int| 0 <= i < at ==> #[trigger] self.items@[i] < value,
            forall|i: int| at <= i < self.items@.len() ==> #[trigger] self.items@[i] >= value,
    {
        proof {
            use_type_invariant(self);
        }
        let mut lo: usize = 0;
        let mut hi: usize = self.items.len();
        while lo < hi
            invariant
                lo <= hi <= self.items@.len(),
                ascending(self.items@),
                forall|i: int| 0 <= i < lo ==> #[trigger] self.items@[i] < value,
                forall|i: int| hi <= i < self.items@.len() ==> #[trigger] self.items@[i] >= value,
            decreases hi - lo,
        {
            let mid: usize = lo + (hi - lo) / 2;
            if self.items[mid] < value {
                lo = mid + 1;
            } else {
                hi = mid;
            }
        }
        lo
    }

    /// Whether `value` is a member.
    pub fn contains(&self, value: usize) -> (yes: bool)
        ensures
            yes == self@.contains(value as int),
    {
        proof {
            use_type_invariant(self);
        }
        let at: usize = self.position(value);
        at < self.items.len() && self.items[at] == value
    }

    /// Make `value` a member.
    pub fn insert(&mut self, value: usize)
        ensures
            final(self)@ == old(self)@.insert(value as int),
    {
        let at: usize = self.position(value);
        let ghost before = self.items@;
        proof {
            use_type_invariant(&*self);
        }
        if at == self.items.len() || self.items[at] != value {
            let mut items: Vec<usize> = Vec::new();
            core::mem::swap(&mut items, &mut self.items);
            items.insert(at, value);
            proof {
                assert forall|i: int, j: int| 0 <= i < j < items@.len() implies items@[i]
                    < items@[j] by {
                    if i < at && j > at {
                        assert(items@[j] == before[j - 1]);
                    }
                }
            }
            self.items = items;
        }
        proof {
            let after = self.items@;
            assert forall|a: int| #[trigger] self@.contains(a) == old(self)@.insert(
                value as int,
            ).contains(a) by {
                if old(self)@.contains(a) {
                    let i = choose|i: int| 0 <= i < before.len() && #[trigger] before[i] == a;
                    if after.len() == before.len() || i < at {
                        assert(after[i] == a);
                    } else {
                        assert(after[i + 1] == a);
                    }
                }
                if a == value {
                    assert(after[at as int] == a);
                }
                if self@.contains(a) {
                    let i = choose|i: int| 0 <= i < after.len() && #[trigger] after[i] == a;
                    if after.len() == before.len() || i < at {
                        assert(before[i] == a);
                    } else if i > at {
                        assert(before[i - 1] == a);
                    }
                }
            }
            assert(self@ =~= old(self)@.insert(value as int));
        }
    }

    /// Make `value` no member. Returns whether it was one.
    pub fn remove(&mut self, value: usize) -> (was: bool)
        ensures
            was == old(self)@.contains(value as int),
            final(self)@ == old(self)@.remove(value as int),
    {
        let at: usize = self.position(value);
        let ghost before = self.items@;
        proof {
            use_type_invariant(&*self);
        }
        if at == self.items.len() || self.items[at] != value {
            assert(self@ =~= old(self)@.remove(value as int));
            return false;
        }
        let mut items: Vec<usize> = Vec::new();
        core::mem::swap(&mut items, &mut self.items);
        let _ = items.remove(at);
        self.items = items;
        proof {
            let after = self.items@;
            assert(before[at as int] == value);
            assert forall|a: int| #[trigger] self@.contains(a) == old(self)@.remove(
                value as int,
            ).contains(a) by {
                if old(self)@.contains(a) && a != value {
                    let i = choose|i: int| 0 <= i < before.len() && #[trigger] before[i] == a;
                    if i < at {
                        assert(after[i] == a);
                    } else {
                        assert(after[i - 1] == a);
                    }
                }
                if self@.contains(a) {
                    let i = choose|i: int| 0 <= i < after.len() && #[trigger] after[i] == a;
                    if i < at {
                        assert(before[i] == a);
                    } else {
                        assert(before[i + 1] == a);
                    }
                }
            }
            assert(self@ =~= old(self)@.remove(value as int));
        }
        true
    }
}

} // verus!
