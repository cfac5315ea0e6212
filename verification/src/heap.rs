//! A binary min-heap of merge candidates, ordered by rank and then by
//! position.

use vstd::multiset::*;
use vstd::prelude::*;
use vstd::seq_lib::*;

verus! {

/// A candidate merge: the pair `(left, right)` seen at list position `pos`,
/// with the rank of its merge.
#[derive(Clone, Copy, Debug)]
pub struct Candidate {
    pub rank: u32,
    pub pos: usize,
    pub left: u32,
    pub right: u32,
}

impl Candidate {
    /// Lexicographic order on `(rank, pos, left, right)`.
    pub open spec fn precedes(self, other: Candidate) -> bool {
        ||| self.rank < other.rank
        ||| self.rank == other.rank && self.pos < other.pos
        ||| self.rank == other.rank && self.pos == other.pos && self.left < other.left
        ||| self.rank == other.rank && self.pos == other.pos && self.left == other.left
            && self.right <= other.right
    }

    /// Whether `self` comes no later than `other`.
    pub fn at_most(&self, other: &Candidate) -> (r: bool)
        ensures
            r == self.precedes(*other),
    {
        if self.rank != other.rank {
            self.rank < other.rank
        } else if self.pos != other.pos {
            self.pos < other.pos
        } else if self.left != other.left {
            self.left < other.left
        } else {
            self.right <= other.right
        }
    }
}

/// Every element but the root comes no earlier than its parent.
spec fn ordered(s: Seq<Candidate>) -> bool {
    forall|i: int| 0 < i < s.len() ==> s[(i - 1) / 2].precedes(#[trigger] s[i])
}

/// [`ordered`] but for the edges from `hole` to its children, where the
/// children of `hole` still come no earlier than the parent of `hole`.
spec fn ordered_below(s: Seq<Candidate>, hole: int) -> bool {
    &&& forall|i: int|
        0 < i < s.len() && (i - 1) / 2 != hole ==> s[(i - 1) / 2].precedes(#[trigger] s[i])
    &&& forall|i: int|
        0 < i < s.len() && (i - 1) / 2 == hole && hole > 0 ==> s[(hole - 1) / 2].precedes(
            #[trigger] s[i],
        )
}

/// [`ordered`] but for the edge into `hole`, whose children already come no
/// earlier than its parent.
spec fn ordered_above(s: Seq<Candidate>, hole: int) -> bool {
    &&& forall|i: int| 0 < i < s.len() && i != hole ==> s[(i - 1) / 2].precedes(#[trigger] s[i])
    &&& forall|i: int|
        0 < i < s.len() && (i - 1) / 2 == hole && hole > 0 ==> s[(hole - 1) / 2].precedes(
            #[trigger] s[i],
        )
}

proof fn lemma_root_first(s: Seq<Candidate>, k: int)
    requires
        ordered(s),
        0 <= k < s.len(),
    ensures
        s[0].precedes(s[k]),
    decreases k,
{
    if k > 0 {
        lemma_root_first(s, (k - 1) / 2);
        assert(s[(k - 1) / 2].precedes(s[k]));
    }
}

proof fn lemma_update_multiset(s: Seq<Candidate>, i: int, a: Candidate)
    requires
        0 <= i < s.len(),
    ensures
        s.update(i, a).to_multiset() =~= s.to_multiset().remove(s[i]).insert(a),
{
    to_multiset_remove(s, i);
    to_multiset_insert(s.remove(i), i, a);
    assert(s.update(i, a) =~= s.remove(i).insert(i, a));
}

proof fn lemma_swap_multiset(s: Seq<Candidate>, i: int, j: int)
    requires
        0 <= i < s.len(),
        0 <= j < s.len(),
    ensures
        s.update(i, s[j]).update(j, s[i]).to_multiset() =~= s.to_multiset(),
{
    broadcast use group_to_multiset_ensures;

    lemma_update_multiset(s, i, s[j]);
    let t = s.update(i, s[j]);
    lemma_update_multiset(t, j, s[i]);
    assert(t[j] == s[j]);
    assert(s.contains(s[i]));
    assert(s.to_multiset().count(s[i]) > 0);
}

/// Min-heap of [`Candidate`]s; its view is the multiset of its elements.
pub struct CandidateHeap {
    items: Vec<Candidate>,
}

impl View for CandidateHeap {
    type V = Multiset<Candidate>;

    closed spec fn view(&self) -> Multiset<Candidate> {
        self.items@.to_multiset()
    }
}

impl CandidateHeap {
    #[verifier::type_invariant]
    closed spec fn inv(self) -> bool {
        ordered(self.items@)
    }

    pub fn new() -> (heap: Self)
        ensures
            heap@ == Multiset::<Candidate>::empty(),
    {
        broadcast use group_to_multiset_ensures;

        let heap = CandidateHeap { items: Vec::new() };
        assert(heap.items@.to_multiset().len() == 0);
        assert(heap@ =~= Multiset::<Candidate>::empty());
        heap
    }

    /// Adds `c`.
    pub fn push(&mut self, c: Candidate)
        ensures
            final(self)@ == old(self)@.insert(c),
    {
        broadcast use group_to_multiset_ensures;

        proof {
            use_type_invariant(&*self);
        }
        let mut items: Vec<Candidate> = Vec::new();
        std::mem::swap(&mut self.items, &mut items);
        let ghost before = items@;
        items.push(c);
        let mut i: usize = items.len() - 1;
        while i > 0
            invariant
                i < items@.len(),
                ordered_above(items@, i as int),
                items@.to_multiset() == before.to_multiset().insert(c),
            ensures
                ordered(items@),
                items@.to_multiset() == before.to_multiset().insert(c),
            decreases i,
        {
            let parent: usize = (i - 1) / 2;
            let up = items[parent];
            let here = items[i];
            if up.at_most(&here) {
                break;
            }
            proof {
                lemma_swap_multiset(items@, parent as int, i as int);
            }
            items.set(parent, here);
            items.set(i, up);
            i = parent;
        }
        self.items = items;
    }

    /// Removes and returns the least candidate; `None` exactly when there is
    /// none.
    pub fn pop(&mut self) -> (r: Option<Candidate>)
        ensures
            r is None <==> old(self)@.len() == 0,
            r is None ==> final(self)@ == old(self)@,
            r matches Some(c) ==> {
                &&& old(self)@.count(c) > 0
                &&& final(self)@ == old(self)@.remove(c)
                &&& forall|d: Candidate| #[trigger] old(self)@.count(d) > 0 ==> c.precedes(d)
            },
    {
        broadcast use group_to_multiset_ensures;

        proof {
            use_type_invariant(&*self);
        }
        let mut items: Vec<Candidate> = Vec::new();
        std::mem::swap(&mut self.items, &mut items);
        let ghost before = items@;
        proof {
            assert forall|d: Candidate| #[trigger]
                before.to_multiset().count(d) > 0 implies before[0].precedes(d) by {
                assert(before.contains(d));
                let k = choose|k: int| 0 <= k < before.len() && before[k] == d;
                lemma_root_first(before, k);
            }
        }
        let last = match items.pop() {
            None => {
                self.items = items;
                return None;
            },
            Some(last) => last,
        };
        proof {
            assert(items@ == before.remove(before.len() - 1));
        }
        if items.len() == 0 {
            self.items = items;
            return Some(last);
        }
        let first = items[0];
        proof {
            lemma_update_multiset(items@, 0, last);
            assert(before.contains(last));
            assert(before.to_multiset().count(last) > 0);
        }
        items.set(0, last);
        assert(items@.to_multiset() =~= before.to_multiset().remove(first));
        assert(ordered_below(items@, 0)) by {
            assert forall|i: int| 0 < i < items@.len() && (i - 1) / 2 != 0 implies items@[(i - 1)
                / 2].precedes(#[trigger] items@[i]) by {
                assert(before[(i - 1) / 2].precedes(before[i]));
            }
        }
        sift_down(&mut items);
        self.items = items;
        Some(first)
    }
}

/// Restores the heap order below the root.
fn sift_down(items: &mut Vec<Candidate>)
    requires
        old(items)@.len() > 0,
        ordered_below(old(items)@, 0),
    ensures
        ordered(final(items)@),
        final(items)@.to_multiset() == old(items)@.to_multiset(),
{
    let ghost before = items@;
    let n: usize = items.len();
    let mut i: usize = 0;
    while i < n && i < n / 2
        invariant
            0 < n == items@.len(),
            i < n,
            ordered_below(items@, i as int),
            items@.to_multiset() == before.to_multiset(),
        ensures
            ordered(items@),
            items@.to_multiset() == before.to_multiset(),
        decreases n - i,
    {
        let left: usize = 2 * i + 1;
        let mut child: usize = left;
        if left + 1 < n {
            let l = items[left];
            let r = items[left + 1];
            if !l.at_most(&r) {
                child = left + 1;
            }
        }
        let down = items[child];
        let here = items[i];
        if here.at_most(&down) {
            assert(ordered(items@)) by {
                assert forall|k: int| 0 < k < items@.len() implies items@[(k - 1) / 2].precedes(
                    #[trigger] items@[k],
                ) by {
                    if (k - 1) / 2 == i {
                        assert(k == left || k == left + 1);
                    }
                }
            }
            break;
        }
        proof {
            lemma_swap_multiset(items@, i as int, child as int);
        }
        let ghost prev = items@;
        items.set(i, down);
        items.set(child, here);
        assert(ordered_below(items@, child as int)) by {
            assert forall|k: int| 0 < k < items@.len() && (k - 1) / 2 != child implies items@[(k
                - 1) / 2].precedes(#[trigger] items@[k]) by {
                if (k - 1) / 2 == i {
                    assert(k == left || k == left + 1);
                } else {
                    assert(prev[(k - 1) / 2].precedes(prev[k]));
                }
            }
            assert forall|k: int| 0 < k < items@.len() && (k - 1) / 2 == child implies items@[(child
                - 1) / 2].precedes(#[trigger] items@[k]) by {
                assert(prev[(k - 1) / 2].precedes(prev[k]));
            }
        }
        i = child;
    }
}

} // verus!
