//! A priority queue of `(distance, node)` pairs that hands out the least
//! pair first (pairs ordered by distance, then by node).
use vstd::prelude::*;

verus! {

/// `a` comes no later than `b` in the queue order.
pub open spec fn pair_le(a: (i64, u32), b: (i64, u32)) -> bool {
    a.0 < b.0 || (a.0 == b.0 && a.1 <= b.1)
}

/// Priority queue of `(distance, node)` pairs; `pop` removes a least pair.
pub struct MinQueue {
    items: Vec<(i64, u32)>,
}

impl MinQueue {
    /// The pairs in the queue (their order carries no meaning).
    pub closed spec fn elems(&self) -> Seq<(i64, u32)> {
        self.items@
    }

    /// An empty queue.
    pub fn new() -> (q: Self)
        ensures
            q.elems().len() == 0,
    {
        MinQueue { items: Vec::new() }
    }

    /// Add a pair.
    pub fn push(&mut self, x: (i64, u32))
        ensures
            final(self).elems() == old(self).elems().push(x),
            forall|y: (i64, u32)|
                #[trigger] final(self).elems().contains(y) <==> (old(self).elems().contains(y) || y
                    == x),
    {
        let ghost old_items = self.items@;
        self.items.push(x);
        proof {
            let new_items = self.items@;
            assert(new_items[new_items.len() - 1] == x);
            assert forall|y: (i64, u32)| #[trigger]
                new_items.contains(y) <==> (old_items.contains(y) || y == x) by {
                if old_items.contains(y) {
                    let k = choose|k: int| 0 <= k < old_items.len() && old_items[k] == y;
                    assert(new_items[k] == y);
                }
                if new_items.contains(y) && y != x {
                    let k = choose|k: int| 0 <= k < new_items.len() && new_items[k] == y;
                    assert(old_items[k] == y);
                }
            }
        }
    }

    /// Whether the queue holds no pair.
    pub fn is_empty(&self) -> (b: bool)
        ensures
            b == (self.elems().len() == 0),
    {
        self.items.len() == 0
    }

    /// Remove and return a least pair, or `None` when the queue is empty.
    pub fn pop(&mut self) -> (r: Option<(i64, u32)>)
        ensures
            old(self).elems().len() == 0 <==> r is None,
            r is None ==> final(self).elems() == old(self).elems(),
            r matches Some(x) ==> {
                &&& old(self).elems().contains(x)
                &&& forall|y: (i64, u32)| old(self).elems().contains(y) ==> pair_le(x, y)
                &&& final(self).elems().len() + 1 == old(self).elems().len()
                &&& forall|y: (i64, u32)|
                    final(self).elems().contains(y) ==> old(self).elems().contains(y)
                &&& forall|y: (i64, u32)|
                    y != x && old(self).elems().contains(y) ==> final(self).elems().contains(y)
            },
    {
        let len = self.items.len();
        if len == 0 {
            return None;
        }
        let mut best: usize = 0;
        let mut i: usize = 1;
        while i < len
            invariant
                len == self.items@.len(),
                1 <= i <= len,
                best < len,
                forall|k: int| 0 <= k < i ==> pair_le(self.items@[best as int], #[trigger] self.items@[k]),
            decreases len - i,
        {
            let a = self.items[i];
            let b = self.items[best];
            if a.0 < b.0 || (a.0 == b.0 && a.1 < b.1) {
                best = i;
            }
            i = i + 1;
        }
        let ghost old_items = self.items@;
        let x = self.items.swap_remove(best);
        proof {
            let new_items = self.items@;
            assert(new_items == old_items.update(best as int, old_items.last()).drop_last());
            assert(old_items[best as int] == x);
            assert forall|y: (i64, u32)| old_items.contains(y) implies pair_le(x, y) by {
                let k = choose|k: int| 0 <= k < old_items.len() && old_items[k] == y;
                assert(pair_le(old_items[best as int], old_items[k]));
            }
            assert forall|y: (i64, u32)| new_items.contains(y) implies old_items.contains(y) by {
                let k = choose|k: int| 0 <= k < new_items.len() && new_items[k] == y;
                if k == best {
                    assert(old_items[old_items.len() - 1] == y);
                } else {
                    assert(old_items[k] == y);
                }
            }
            assert forall|y: (i64, u32)| y != x && old_items.contains(y) implies new_items.contains(
                y,
            ) by {
                let k = choose|k: int| 0 <= k < old_items.len() && old_items[k] == y;
                if k == old_items.len() - 1 {
                    assert(new_items[best as int] == y || best as int == k);
                    if best as int != k {
                        assert(new_items[best as int] == y);
                    }
                } else {
                    assert(k != best);
                    assert(new_items[k] == y);
                }
            }
        }
        Some(x)
    }
}

} // verus!
