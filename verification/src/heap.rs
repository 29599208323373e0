//! A binary min-heap of search-frontier entries, laid out in a vector. Entries
//! are ordered by estimated cost, then by the order in which they were pushed,
//! then by cell, so that the entry that comes out next is never ambiguous.

use vstd::prelude::*;
use vstd::multiset::Multiset;

verus! {

/// A frontier entry: estimated total cost, push order, cell index.
#[derive(Clone, Copy, PartialEq, Eq, Structural, Debug)]
pub struct Entry {
    pub f: i32,
    pub seq: i64,
    pub cell: i32,
}

/// Lexicographic order on entries.
pub open spec fn entry_le(a: Entry, b: Entry) -> bool {
    a.f < b.f || (a.f == b.f && (a.seq < b.seq || (a.seq == b.seq && a.cell <= b.cell)))
}

fn le(a: Entry, b: Entry) -> (r: bool)
    ensures
        r == entry_le(a, b),
{
    a.f < b.f || (a.f == b.f && (a.seq < b.seq || (a.seq == b.seq && a.cell <= b.cell)))
}

/// The slot above slot `i`.
spec fn parent(i: int) -> int {
    (i - 1) / 2
}

/// Every slot is at least its parent.
spec fn ordered(s: Seq<Entry>) -> bool {
    forall|j: int| 0 < j < s.len() ==> #[trigger] entry_le(s[parent(j)], s[j])
}

/// Ordered, but for slot `i` against its parent.
spec fn ordered_below(s: Seq<Entry>, i: int) -> bool {
    &&& forall|j: int| 0 < j < s.len() && j != i ==> #[trigger] entry_le(s[parent(j)], s[j])
    &&& forall|j: int|
        0 < j < s.len() && parent(j) == i && i > 0 ==> entry_le(s[parent(i)], #[trigger] s[j])
}

/// Ordered, but for slot `i` against its children.
spec fn ordered_above(s: Seq<Entry>, i: int) -> bool {
    &&& forall|j: int| 0 < j < s.len() && parent(j) != i ==> #[trigger] entry_le(s[parent(j)], s[j])
    &&& forall|j: int|
        0 < j < s.len() && parent(j) == i && i > 0 ==> entry_le(s[parent(i)], #[trigger] s[j])
}

proof fn lemma_update_multiset(s: Seq<Entry>, i: int, a: Entry)
    requires
        0 <= i < s.len(),
    ensures
        s.update(i, a).to_multiset() =~= s.to_multiset().remove(s[i]).insert(a),
{
    broadcast use vstd::seq_lib::group_to_multiset_ensures;

    let t = s.update(i, a);
    assert(t.remove(i) =~= s.remove(i));
    assert(t.remove(i).to_multiset() == t.to_multiset().remove(t[i]));
    assert(s.remove(i).to_multiset() == s.to_multiset().remove(s[i]));
    assert(t.contains(t[i]));
    assert(t.to_multiset().count(a) > 0);
}

proof fn lemma_swap_multiset(s: Seq<Entry>, i: int, j: int)
    requires
        0 <= i < s.len(),
        0 <= j < s.len(),
        i != j,
    ensures
        s.update(i, s[j]).update(j, s[i]).to_multiset() =~= s.to_multiset(),
{
    broadcast use vstd::seq_lib::group_to_multiset_ensures;

    lemma_update_multiset(s, i, s[j]);
    lemma_update_multiset(s.update(i, s[j]), j, s[i]);
    assert(s.contains(s[i]));
    assert(s.contains(s[j]));
}

proof fn lemma_root_is_least(s: Seq<Entry>, j: int)
    requires
        ordered(s),
        0 <= j < s.len(),
    ensures
        entry_le(s[0], s[j]),
    decreases j,
{
    if j > 0 {
        lemma_root_is_least(s, parent(j));
        assert(entry_le(s[parent(j)], s[j]));
    }
}

/// A min-heap; its view is what it holds.
pub struct Heap {
    items: Vec<Entry>,
}

impl View for Heap {
    type V = Multiset<Entry>;

    closed spec fn view(&self) -> Multiset<Entry> {
        self.items@.to_multiset()
    }
}

impl Heap {
    /// The layout keeps every entry at least as large as the one above it.
    pub closed spec fn wf(&self) -> bool {
        ordered(self.items@)
    }

    /// An empty heap.
    pub fn new() -> (h: Heap)
        ensures
            h.wf(),
            h@ =~= Multiset::<Entry>::empty(),
    {
        let h = Heap { items: Vec::new() };
        proof {
            broadcast use vstd::seq_lib::group_to_multiset_ensures;

            assert(h@.len() == 0);
        }
        h
    }

    fn swap(&mut self, i: usize, j: usize)
        requires
            i < old(self).items@.len(),
            j < old(self).items@.len(),
            i != j,
        ensures
            final(self).items@ == old(self).items@.update(i as int, old(self).items@[j as int]).update(
                j as int,
                old(self).items@[i as int],
            ),
            final(self)@ == old(self)@,
    {
        proof {
            lemma_swap_multiset(self.items@, i as int, j as int);
        }
        let a = self.items[i];
        let b = self.items[j];
        self.items[i] = b;
        self.items[j] = a;
    }

    /// Adds an entry.
    pub fn push(&mut self, x: Entry)
        requires
            old(self).wf(),
        ensures
            final(self).wf(),
            final(self)@ == old(self)@.insert(x),
    {
        broadcast use vstd::seq_lib::group_to_multiset_ensures;

        let mut i: usize = self.items.len();
        self.items.push(x);
        while i > 0
            invariant_except_break
                i < self.items@.len(),
                ordered_below(self.items@, i as int),
                self@ == old(self)@.insert(x),
            ensures
                ordered(self.items@),
                self@ == old(self)@.insert(x),
            decreases i,
        {
            let p: usize = (i - 1) / 2;
            if le(self.items[p], self.items[i]) {
                break;
            }
            let ghost s = self.items@;
            self.swap(i, p);
            proof {
                let t = self.items@;
                assert forall|j: int| 0 < j < t.len() && j != p implies #[trigger] entry_le(
                    t[parent(j)],
                    t[j],
                ) by {
                    assert(j != i ==> entry_le(s[parent(j)], s[j]));
                    if parent(j) == i {
                        assert(entry_le(s[parent(i as int)], s[j]));
                    }
                }
                assert forall|j: int| 0 < j < t.len() && parent(j) == p && p > 0 implies entry_le(
                    t[parent(p as int)],
                    #[trigger] t[j],
                ) by {
                    assert(entry_le(s[parent(p as int)], s[p as int]));
                    if j != i {
                        assert(entry_le(s[parent(j)], s[j]));
                    }
                }
            }
            i = p;
        }
    }

    /// Takes out the least entry.
    pub fn pop(&mut self) -> (r: Option<Entry>)
        requires
            old(self).wf(),
        ensures
            final(self).wf(),
            match r {
                Some(x) => {
                    &&& old(self)@.contains(x)
                    &&& final(self)@ == old(self)@.remove(x)
                    &&& forall|y: Entry| #[trigger] old(self)@.contains(y) ==> entry_le(x, y)
                },
                None => old(self)@.len() == 0 && final(self)@ == old(self)@,
            },
    {
        broadcast use vstd::seq_lib::group_to_multiset_ensures;

        let n: usize = self.items.len();
        if n == 0 {
            return None;
        }
        let ghost s0 = self.items@;
        let top = self.items[0];
        proof {
            assert(s0.contains(top));
            assert forall|y: Entry| #[trigger] self@.contains(y) implies entry_le(top, y) by {
                assert(s0.contains(y));
                let j = choose|j: int| 0 <= j < s0.len() && s0[j] == y;
                lemma_root_is_least(s0, j);
            }
        }
        if n == 1 {
            let gone = self.items.pop();
            proof {
                assert(self.items@ =~= s0.remove(0));
            }
            return Some(top);
        }
        let last = self.items[n - 1];
        self.items[0] = last;
        let gone = self.items.pop();
        proof {
            lemma_update_multiset(s0, 0, last);
            let t = s0.update(0, last);
            assert(self.items@ =~= t.remove(n - 1));
            assert(t.to_multiset().remove(last) =~= s0.to_multiset().remove(top));
        }
        let ghost want = self@;
        let m: usize = n - 1;
        let mut i: usize = 0;
        proof {
            let t = self.items@;
            assert forall|j: int| 0 < j < t.len() && parent(j) != 0 implies #[trigger] entry_le(
                t[parent(j)],
                t[j],
            ) by {
                assert(entry_le(s0[parent(j)], s0[j]));
            }
        }
        while i < m / 2
            invariant_except_break
                i < m,
                m == self.items@.len(),
                ordered_above(self.items@, i as int),
                self@ == want,
            ensures
                ordered(self.items@),
                self@ == want,
            decreases m - i,
        {
            let l: usize = 2 * i + 1;
            let mut c: usize = l;
            if l + 1 < m && !le(self.items[l], self.items[l + 1]) {
                c = l + 1;
            }
            if le(self.items[i], self.items[c]) {
                proof {
                    let s = self.items@;
                    assert forall|j: int| 0 < j < s.len() implies #[trigger] entry_le(
                        s[parent(j)],
                        s[j],
                    ) by {
                        if parent(j) == i {
                            assert(j == l || j == l + 1);
                        }
                    }
                }
                break;
            }
            let ghost s = self.items@;
            self.swap(i, c);
            proof {
                let t = self.items@;
                assert(parent(c as int) == i);
                assert forall|j: int| 0 < j < t.len() && parent(j) != c implies #[trigger] entry_le(
                    t[parent(j)],
                    t[j],
                ) by {
                    if parent(j) == i {
                        assert(j == l || j == l + 1);
                    } else {
                        assert(entry_le(s[parent(j)], s[j]));
                        if j == i {
                            assert(entry_le(s[parent(i as int)], s[c as int]));
                        }
                    }
                }
                assert forall|j: int| 0 < j < t.len() && parent(j) == c implies entry_le(
                    t[parent(c as int)],
                    #[trigger] t[j],
                ) by {
                    assert(entry_le(s[parent(j)], s[j]));
                }
            }
            i = c;
        }
        Some(top)
    }
}

} // verus!
