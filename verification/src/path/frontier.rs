//! The cells that a search has reached and not yet expanded, each under the
//! priority it was entered with.

use crate::utils::position::Pos;
use vstd::multiset::Multiset;
use vstd::prelude::*;
use vstd::seq_lib::{
    to_multiset_build, to_multiset_contains, to_multiset_len, to_multiset_remove,
    to_multiset_update,
};

verus! {

/// A priority queue of cells, kept as a binary heap. The entry with the
/// least priority leaves first; a cell may be entered more than once.
#[derive(Debug)]
pub struct Frontier {
    entries: Vec<(u64, Pos)>,
}

/// The entry at place `i` is not below the entry at the place above it in
/// the heap.
spec fn above_ok(s: Seq<(u64, Pos)>, i: int) -> bool {
    s[(i - 1) / 2].0 <= s[i].0
}

/// The entry at place `c` is not below the entry two places above it, at
/// the place above `k`.
spec fn below_ok(s: Seq<(u64, Pos)>, k: int, c: int) -> bool {
    s[(k - 1) / 2].0 <= s[c].0
}

/// Every entry but the first is not below the entry at the place above it.
spec fn is_heap(s: Seq<(u64, Pos)>) -> bool {
    forall|i: int| 0 < i < s.len() ==> #[trigger] above_ok(s, i)
}

/// The first entry of a heap is a least one.
proof fn lemma_root_least(s: Seq<(u64, Pos)>, i: int)
    requires
        is_heap(s),
        0 <= i < s.len(),
    ensures
        s[0].0 <= s[i].0,
    decreases i,
{
    if i > 0 {
        assert(above_ok(s, i));
        lemma_root_least(s, (i - 1) / 2);
    }
}

/// Two entries that change places leave the entries what they were.
proof fn lemma_swap_keeps_entries(s: Seq<(u64, Pos)>, a: int, b: int)
    requires
        0 <= a < s.len(),
        0 <= b < s.len(),
    ensures
        s.update(a, s[b]).update(b, s[a]).to_multiset() == s.to_multiset(),
{
    let once = s.update(a, s[b]);
    to_multiset_update(s, a, s[b]);
    to_multiset_update(once, b, s[a]);
    to_multiset_contains(s, s[a]);
    to_multiset_contains(s, s[b]);
    if a == b {
        assert(once.update(b, s[a]) =~= s);
    } else {
        assert(once[b] == s[b]);
        assert(once.update(b, s[a]).to_multiset() =~= s.to_multiset());
    }
}

/// Exchanges the entries at the places `a` and `b`.
fn exchange(v: &mut Vec<(u64, Pos)>, a: usize, b: usize)
    requires
        a < old(v)@.len(),
        b < old(v)@.len(),
    ensures
        final(v)@ == old(v)@.update(a as int, old(v)@[b as int]).update(b as int, old(v)@[a as int]),
        final(v)@.to_multiset() == old(v)@.to_multiset(),
{
    proof {
        lemma_swap_keeps_entries(v@, a as int, b as int);
    }
    let first: (u64, Pos) = v[a];
    let second: (u64, Pos) = v[b];
    v.set(a, second);
    v.set(b, first);
}

/// Moves the entry at place `at` up until the entry above it is not
/// greater.
fn sift_up(v: &mut Vec<(u64, Pos)>, at: usize)
    requires
        at < old(v)@.len(),
        forall|i: int| 0 < i < old(v)@.len() && i != at ==> #[trigger] above_ok(old(v)@, i),
        at > 0 ==> forall|c: int|
            0 < c < old(v)@.len() && (c - 1) / 2 == at ==> #[trigger] below_ok(
                old(v)@,
                at as int,
                c,
            ),
    ensures
        is_heap(final(v)@),
        final(v)@.to_multiset() == old(v)@.to_multiset(),
        final(v)@.len() == old(v)@.len(),
{
    let mut k: usize = at;
    while k > 0 && v[(k - 1) / 2].0 > v[k].0
        invariant
            k < v@.len(),
            v@.len() == old(v)@.len(),
            v@.to_multiset() == old(v)@.to_multiset(),
            forall|i: int| 0 < i < v@.len() && i != k ==> #[trigger] above_ok(v@, i),
            k > 0 ==> forall|c: int|
                0 < c < v@.len() && (c - 1) / 2 == k ==> #[trigger] below_ok(v@, k as int, c),
        decreases k,
    {
        let up: usize = (k - 1) / 2;
        let ghost before = v@;
        exchange(v, up, k);
        proof {
            assert forall|i: int| 0 < i < v@.len() && i != up implies #[trigger] above_ok(v@, i) by {
                if i == k {
                } else if (i - 1) / 2 == k {
                    assert(below_ok(before, k as int, i));
                } else {
                    assert(above_ok(before, i));
                }
            }
            if up > 0 {
                assert(above_ok(before, up as int));
                assert forall|c: int| 0 < c < v@.len() && (c - 1) / 2 == up implies #[trigger] below_ok(
                    v@,
                    up as int,
                    c,
                ) by {
                    if c != k {
                        assert(above_ok(before, c));
                    }
                }
            }
        }
        k = up;
    }
    proof {
        assert forall|i: int| 0 < i < v@.len() implies #[trigger] above_ok(v@, i) by {
            if i != k {
                assert(above_ok(v@, i));
            }
        }
    }
}

/// Moves the entry at place `at` down until neither entry below it is
/// smaller.
fn sift_down(v: &mut Vec<(u64, Pos)>, at: usize)
    requires
        at < old(v)@.len(),
        forall|i: int|
            0 < i < old(v)@.len() && (i - 1) / 2 != at ==> #[trigger] above_ok(old(v)@, i),
        at > 0 ==> forall|c: int|
            0 < c < old(v)@.len() && (c - 1) / 2 == at ==> #[trigger] below_ok(
                old(v)@,
                at as int,
                c,
            ),
    ensures
        is_heap(final(v)@),
        final(v)@.to_multiset() == old(v)@.to_multiset(),
        final(v)@.len() == old(v)@.len(),
{
    let n: usize = v.len();
    let mut k: usize = at;
    loop
        invariant_except_break
            k < n,
            forall|i: int| 0 < i < v@.len() && (i - 1) / 2 != k ==> #[trigger] above_ok(v@, i),
            k > 0 ==> forall|c: int|
                0 < c < v@.len() && (c - 1) / 2 == k ==> #[trigger] below_ok(v@, k as int, c),
        invariant
            n == v@.len(),
            v@.len() == old(v)@.len(),
            v@.to_multiset() == old(v)@.to_multiset(),
        ensures
            is_heap(v@),
        decreases n - k,
    {
        if n < 2 || k > (n - 2) / 2 {
            proof {
                assert forall|i: int| 0 < i < v@.len() implies #[trigger] above_ok(v@, i) by {
                    if (i - 1) / 2 != k {
                        assert(above_ok(v@, i));
                    }
                }
            }
            break ;
        }
        let left: usize = 2 * k + 1;
        let mut least: usize = left;
        if left + 1 < n && v[left + 1].0 < v[left].0 {
            least = left + 1;
        }
        if v[k].0 <= v[least].0 {
            proof {
                assert forall|i: int| 0 < i < v@.len() implies #[trigger] above_ok(v@, i) by {
                    if (i - 1) / 2 != k {
                        assert(above_ok(v@, i));
                    } else {
                        assert(i == left || i == left + 1);
                    }
                }
            }
            break ;
        }
        let ghost before = v@;
        exchange(v, k, least);
        proof {
            assert forall|i: int|
                0 < i < v@.len() && (i - 1) / 2 != least implies #[trigger] above_ok(v@, i) by {
                if i == least {
                } else if (i - 1) / 2 == k {
                    assert(i == left || i == left + 1);
                } else if i == k {
                    assert(below_ok(before, k as int, least as int));
                } else {
                    assert(above_ok(before, i));
                }
            }
            assert forall|c: int| 0 < c < v@.len() && (c - 1) / 2 == least implies #[trigger] below_ok(
                v@,
                least as int,
                c,
            ) by {
                assert(above_ok(before, c));
            }
        }
        k = least;
    }
}

/// Enters `entry` into the heap `v`.
fn heap_push(v: &mut Vec<(u64, Pos)>, entry: (u64, Pos))
    requires
        is_heap(old(v)@),
    ensures
        is_heap(final(v)@),
        final(v)@.to_multiset() == old(v)@.to_multiset().insert(entry),
{
    proof {
        to_multiset_build(v@, entry);
    }
    let ghost before = v@;
    v.push(entry);
    let at: usize = v.len() - 1;
    proof {
        assert forall|i: int| 0 < i < v@.len() && i != at implies #[trigger] above_ok(v@, i) by {
            assert(above_ok(before, i));
        }
    }
    sift_up(v, at);
}

/// Takes the first entry out of the heap `v`.
fn heap_pop(v: &mut Vec<(u64, Pos)>) -> (least: Option<(u64, Pos)>)
    requires
        is_heap(old(v)@),
    ensures
        is_heap(final(v)@),
        match least {
            None => old(v)@.len() == 0 && final(v)@ == old(v)@,
            Some(entry) => {
                &&& old(v)@.len() > 0
                &&& entry == old(v)@[0]
                &&& final(v)@.to_multiset() == old(v)@.to_multiset().remove(entry)
                &&& final(v)@.len() == old(v)@.len() - 1
            },
        },
{
    let ghost before = v@;
    let last: (u64, Pos) = match v.pop() {
        None => {
            return None;
        },
        Some(entry) => entry,
    };
    proof {
        assert(v@ =~= before.remove(before.len() - 1));
        to_multiset_remove(before, before.len() - 1);
    }
    if v.len() == 0 {
        return Some(last);
    }
    let root: (u64, Pos) = v[0];
    let ghost shorter = v@;
    v.set(0, last);
    proof {
        to_multiset_update(shorter, 0, last);
        to_multiset_contains(before, last);
        assert(before[0] == root);
        assert(v@.to_multiset() =~= before.to_multiset().remove(root));
        assert forall|i: int| 0 < i < v@.len() && (i - 1) / 2 != 0 implies #[trigger] above_ok(
            v@,
            i,
        ) by {
            assert(above_ok(before, i));
        }
    }
    sift_down(v, 0);
    Some(root)
}

impl View for Frontier {
    type V = Multiset<(u64, Pos)>;

    closed spec fn view(&self) -> Multiset<(u64, Pos)> {
        self.entries@.to_multiset()
    }
}

impl Frontier {
    /// The entries are in the order that a heap keeps them in.
    pub closed spec fn wf(&self) -> bool {
        is_heap(self.entries@)
    }

    /// A queue without entries.
    pub fn new() -> (made: Frontier)
        ensures
            made.wf(),
            made@ == Multiset::<(u64, Pos)>::empty(),
    {
        let made = Frontier { entries: Vec::new() };
        proof {
            to_multiset_len(made.entries@);
            assert(made@ =~= Multiset::<(u64, Pos)>::empty());
        }
        made
    }

    /// Number of entries.
    pub fn len(&self) -> (n: usize)
        ensures
            n == self@.len(),
    {
        proof {
            to_multiset_len(self.entries@);
        }
        self.entries.len()
    }

    /// Enters `cell` under `priority`.
    pub fn push(&mut self, priority: u64, cell: Pos)
        requires
            old(self).wf(),
        ensures
            final(self).wf(),
            final(self)@ == old(self)@.insert((priority, cell)),
    {
        heap_push(&mut self.entries, (priority, cell));
    }

    /// Takes out an entry of least priority; `None` when there is no entry.
    pub fn pop_min(&mut self) -> (least: Option<(u64, Pos)>)
        requires
            old(self).wf(),
        ensures
            final(self).wf(),
            match least {
                None => old(self)@.len() == 0 && final(self)@ == old(self)@,
                Some(entry) => {
                    &&& old(self)@.contains(entry)
                    &&& final(self)@ == old(self)@.remove(entry)
                    &&& final(self)@.len() == old(self)@.len() - 1
                    &&& forall|other: (u64, Pos)| #[trigger]
                        old(self)@.contains(other) ==> entry.0 <= other.0
                },
            },
    {
        proof {
            to_multiset_len(self.entries@);
        }
        let ghost before = self.entries@;
        let least = heap_pop(&mut self.entries);
        proof {
            to_multiset_len(self.entries@);
            if least is Some {
                let entry = least.unwrap();
                to_multiset_contains(before, entry);
                assert forall|other: (u64, Pos)| #[trigger]
                    before.to_multiset().contains(other) implies entry.0 <= other.0 by {
                    to_multiset_contains(before, other);
                    let k = choose|k: int| 0 <= k < before.len() && before[k] == other;
                    lemma_root_least(before, k);
                }
            }
        }
        least
    }
}

} // verus!
