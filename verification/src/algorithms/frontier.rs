//! The queue of a lowest-cost-first search: a binary heap.

use crate::algorithms::dijkstra::BinNode;
use vstd::multiset::Multiset;
use vstd::prelude::*;

verus! {

/// The entry at place `j` does not come before the entry above it.
spec fn ordered(s: Seq<BinNode>, j: int) -> bool {
    !s[j].spec_before(s[(j - 1) / 2])
}

/// No entry comes before the entry above it.
spec fn heap(s: Seq<BinNode>) -> bool {
    forall|j: int| 1 <= j < s.len() ==> #[trigger] ordered(s, j)
}

/// The heap order holds but for the entry at `hole` and the entry
/// above it, and the entries below `hole` do not come before the entry
/// above it.
spec fn rising(s: Seq<BinNode>, hole: int) -> bool {
    &&& forall|j: int| 1 <= j < s.len() && j != hole ==> #[trigger] ordered(s, j)
    &&& forall|j: int|
        1 <= j < s.len() && (j - 1) / 2 == hole && hole > 0 ==> !(#[trigger] s[j]).spec_before(
            s[(hole - 1) / 2],
        )
}

/// The heap order holds but for the entry at `hole` and the entries
/// below it, and those do not come before the entry above `hole`.
spec fn sinking(s: Seq<BinNode>, hole: int) -> bool {
    &&& forall|j: int| 1 <= j < s.len() && (j - 1) / 2 != hole ==> #[trigger] ordered(s, j)
    &&& forall|j: int|
        1 <= j < s.len() && (j - 1) / 2 == hole && hole > 0 ==> !(#[trigger] s[j]).spec_before(
            s[(hole - 1) / 2],
        )
}

/// The sequence with the entries at `i` and `j` exchanged.
spec fn swapped(s: Seq<BinNode>, i: int, j: int) -> Seq<BinNode> {
    s.update(i, s[j]).update(j, s[i])
}

proof fn lemma_swapped(s: Seq<BinNode>, i: int, j: int)
    requires
        0 <= i < s.len(),
        0 <= j < s.len(),
    ensures
        swapped(s, i, j).to_multiset() == s.to_multiset(),
        swapped(s, i, j).len() == s.len(),
{
    broadcast use vstd::seq_lib::group_to_multiset_ensures;

    let mid = s.update(i, s[j]);
    vstd::seq_lib::to_multiset_update(s, i, s[j]);
    vstd::seq_lib::to_multiset_update(mid, j, s[i]);
    assert(s.to_multiset().count(s[i]) > 0) by {
        assert(s.contains(s[i]));
    }
    assert(s.to_multiset().count(s[j]) > 0) by {
        assert(s.contains(s[j]));
    }
    assert(swapped(s, i, j).to_multiset() =~= s.to_multiset());
}

/// In a heap no entry comes before the first.
proof fn lemma_root_least(s: Seq<BinNode>, j: int)
    requires
        heap(s),
        0 <= j < s.len(),
    ensures
        !s[j].spec_before(s[0]),
    decreases j,
{
    if j > 0 {
        assert(ordered(s, j));
        lemma_root_least(s, (j - 1) / 2);
    }
}

/// Exchanges the entries at `i` and `j`.
fn swap(items: &mut Vec<BinNode>, i: usize, j: usize)
    requires
        i < old(items)@.len(),
        j < old(items)@.len(),
    ensures
        final(items)@ == swapped(old(items)@, i as int, j as int),
{
    let a = items[i];
    let b = items[j];
    items.set(i, b);
    items.set(j, a);
}

/// Lets the entry at `start` rise to its place.
fn sift_up(items: &mut Vec<BinNode>, start: usize)
    requires
        start < old(items)@.len(),
        rising(old(items)@, start as int),
    ensures
        heap(final(items)@),
        final(items)@.to_multiset() == old(items)@.to_multiset(),
        final(items)@.len() == old(items)@.len(),
{
    let mut i = start;
    while i > 0
        invariant
            i < items@.len(),
            rising(items@, i as int),
            items@.to_multiset() == old(items)@.to_multiset(),
            items@.len() == old(items)@.len(),
        ensures
            heap(items@),
        decreases i,
    {
        let up = (i - 1) / 2;
        if items[i].before(&items[up]) {
            let ghost s = items@;
            proof {
                lemma_swapped(s, i as int, up as int);
            }
            swap(items, i, up);
            proof {
                let s2 = items@;
                assert forall|j: int| 1 <= j < s2.len() && j != up implies #[trigger] ordered(
                    s2,
                    j,
                ) by {
                    if j != i {
                        assert(ordered(s, j));
                    }
                }
                assert forall|j: int|
                    1 <= j < s2.len() && (j - 1) / 2 == up && up > 0 implies !(#[trigger] s2[j]).spec_before(
                    s2[(up - 1) / 2],
                ) by {
                    assert(ordered(s, up as int));
                    if j != i {
                        assert(ordered(s, j));
                    }
                }
            }
            i = up;
        } else {
            break ;
        }
    }
}

/// Lets the first entry sink to its place.
fn sift_down(items: &mut Vec<BinNode>)
    requires
        old(items)@.len() > 0,
        sinking(old(items)@, 0),
    ensures
        heap(final(items)@),
        final(items)@.to_multiset() == old(items)@.to_multiset(),
        final(items)@.len() == old(items)@.len(),
{
    let n = items.len();
    let mut i: usize = 0;
    while i < n / 2
        invariant
            n == items@.len(),
            i < n,
            sinking(items@, i as int),
            items@.to_multiset() == old(items)@.to_multiset(),
        ensures
            heap(items@),
            n == items@.len(),
            items@.to_multiset() == old(items)@.to_multiset(),
        decreases n - i,
    {
        let left = 2 * i + 1;
        let right = left + 1;
        let mut least = left;
        if right < n && items[right].before(&items[left]) {
            least = right;
        }
        if items[least].before(&items[i]) {
            let ghost s = items@;
            proof {
                lemma_swapped(s, i as int, least as int);
            }
            swap(items, i, least);
            proof {
                let s2 = items@;
                assert forall|j: int|
                    1 <= j < s2.len() && (j - 1) / 2 != least implies #[trigger] ordered(s2, j) by {
                    if (j - 1) / 2 != i {
                        assert(ordered(s, j));
                    } else {
                        assert(j == left || j == right);
                    }
                    if j == i {
                        assert(!s[least as int].spec_before(s[(i - 1) / 2]));
                    }
                }
                assert forall|j: int|
                    1 <= j < s2.len() && (j - 1) / 2 == least && least > 0 implies !(#[trigger] s2[j]).spec_before(
                    s2[(least - 1) / 2],
                ) by {
                    assert(ordered(s, j));
                }
            }
            i = least;
        } else {
            proof {
                let s = items@;
                assert forall|j: int| 1 <= j < s.len() implies #[trigger] ordered(s, j) by {
                    if (j - 1) / 2 == i {
                        assert(j == left || j == right);
                    }
                }
            }
            break ;
        }
    }
    proof {
        let s = items@;
        if i >= n / 2 {
            assert forall|j: int| 1 <= j < s.len() implies #[trigger] ordered(s, j) by {
                if (j - 1) / 2 == i {
                    assert(false);
                }
            }
        }
    }
}

/// A priority queue of entries: `pop` hands out an entry that no other
/// entry comes before.
pub struct Frontier {
    items: Vec<BinNode>,
}

impl View for Frontier {
    type V = Multiset<BinNode>;

    closed spec fn view(&self) -> Multiset<BinNode> {
        self.items@.to_multiset()
    }
}

impl Frontier {
    #[verifier::type_invariant]
    closed spec fn inv(self) -> bool {
        heap(self.items@)
    }

    /// The empty queue.
    pub fn new() -> (q: Frontier)
        ensures
            q@ == Multiset::<BinNode>::empty(),
    {
        let q = Frontier { items: Vec::new() };
        assert(q.items@.to_multiset() =~= Multiset::empty()) by {
            broadcast use vstd::seq_lib::group_to_multiset_ensures;

        }
        q
    }

    /// Puts `entry` into the queue.
    pub fn push(&mut self, entry: BinNode)
        ensures
            final(self)@ == old(self)@.insert(entry),
    {
        proof {
            use_type_invariant(&*self);
        }
        let mut taken = Frontier { items: Vec::new() };
        core::mem::swap(self, &mut taken);
        let Frontier { mut items } = taken;
        proof {
            vstd::seq_lib::to_multiset_build(items@, entry);
            let s = items@;
            let s2 = s.push(entry);
            assert forall|j: int| 1 <= j < s2.len() && j != s.len() implies #[trigger] ordered(
                s2,
                j,
            ) by {
                assert(ordered(s, j));
            }
        }
        items.push(entry);
        let last = items.len() - 1;
        sift_up(&mut items, last);
        *self = Frontier { items };
    }

    /// Takes out an entry that no other entry comes before; `None` when
    /// the queue is empty.
    pub fn pop(&mut self) -> (r: Option<BinNode>)
        ensures
            match r {
                Some(least) => {
                    &&& old(self)@.contains(least)
                    &&& final(self)@ == old(self)@.remove(least)
                    &&& forall|e: BinNode| #[trigger]
                        old(self)@.contains(e) ==> !e.spec_before(least)
                },
                None => old(self)@.len() == 0 && final(self)@ == old(self)@,
            },
    {
        broadcast use vstd::seq_lib::group_to_multiset_ensures;

        proof {
            use_type_invariant(&*self);
        }
        let mut taken = Frontier { items: Vec::new() };
        core::mem::swap(self, &mut taken);
        let Frontier { mut items } = taken;
        let ghost before = items@;
        let n = items.len();
        if n == 0 {
            *self = Frontier { items };
            return None;
        }
        let least = items[0];
        proof {
            assert forall|e: BinNode| #[trigger] before.to_multiset().contains(e) implies !e.spec_before(
                least,
            ) by {
                let j = choose|j: int| 0 <= j < before.len() && before[j] == e;
                lemma_root_least(before, j);
            }
            vstd::seq_lib::to_multiset_remove(before, n - 1);
        }
        let last = match items.pop() {
            Some(entry) => entry,
            None => least,
        };
        if n > 1 {
            let ghost short = items@;
            proof {
                vstd::seq_lib::to_multiset_update(short, 0, last);
                assert(short.to_multiset().insert(last).remove(least) =~= before.to_multiset().remove(
                    least,
                ));
                let s2 = short.update(0, last);
                assert forall|j: int| 1 <= j < s2.len() && (j - 1) / 2 != 0 implies #[trigger] ordered(
                    s2,
                    j,
                ) by {
                    assert(ordered(before, j));
                }
            }
            items.set(0, last);
            sift_down(&mut items);
        }
        *self = Frontier { items };
        Some(least)
    }

    /// The number of entries.
    pub fn len(&self) -> (n: usize)
        ensures
            n == self@.len(),
    {
        broadcast use vstd::seq_lib::group_to_multiset_ensures;

        self.items.len()
    }
}

} // verus!
