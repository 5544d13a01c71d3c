//! The reachability engine: a deduplicating work queue, a dependency-edge
//! recorder, sorted index sets, and the reachability relation the resolved
//! output is specified against.
use vstd::prelude::*;
use vstd::pervasive::VecAdditionalExecFns;
use vstd::set_lib::lemma_len_subset;
use vstd::set_lib::lemma_int_range;
use vstd::set_lib::set_int_range;

verus! {

/// The set of indices a sequence holds.
pub open spec fn as_set(s: Seq<usize>) -> Set<usize> {
    Set::new(|x: usize| s.contains(x))
}

/// Strictly increasing: sorted, with no repetition.
pub open spec fn strictly_sorted(s: Seq<usize>) -> bool {
    forall|i: int, j: int| 0 <= i < j < s.len() ==> s[i] < s[j]
}

/// Where `x` lands in a strictly sorted sequence of indices: in place, kept
/// sorted, and without effect when it is already present.
pub open spec fn insert_sorted(s: Seq<usize>, x: usize) -> Seq<usize>
    decreases s.len(),
{
    if s.len() == 0 {
        seq![x]
    } else if s.first() < x {
        seq![s.first()].add(insert_sorted(s.skip(1), x))
    } else if s.first() == x {
        s
    } else {
        seq![x].add(s)
    }
}

/// What `insert_sorted` does, split at the first position holding `x` or more.
pub proof fn lemma_insert_sorted_split(s: Seq<usize>, x: usize, p: int)
    requires
        0 <= p <= s.len(),
        forall|j: int| 0 <= j < p ==> s[j] < x,
        p < s.len() ==> s[p] >= x,
    ensures
        p < s.len() && s[p] == x ==> insert_sorted(s, x) == s,
        !(p < s.len() && s[p] == x) ==> insert_sorted(s, x) =~= s.take(p).add(seq![x]).add(
            s.skip(p),
        ),
    decreases s.len(),
{
    if s.len() == 0 {
        assert(insert_sorted(s, x) =~= s.take(p).add(seq![x]).add(s.skip(p)));
    } else if p == 0 {
        if s[0] == x {
        } else {
            assert(insert_sorted(s, x) =~= s.take(0).add(seq![x]).add(s.skip(0)));
        }
    } else {
        assert(s[0] < x);
        assert forall|j: int| 0 <= j < p - 1 implies s.skip(1)[j] < x by {
            assert(s.skip(1)[j] == s[j + 1]);
        }
        assert(p - 1 < s.skip(1).len() ==> s.skip(1)[p - 1] >= x);
        lemma_insert_sorted_split(s.skip(1), x, p - 1);
        if p < s.len() && s[p] == x {
            assert(s.skip(1)[p - 1] == x);
            assert(insert_sorted(s, x) =~= s);
        } else {
            assert(insert_sorted(s.skip(1), x) =~= s.skip(1).take(p - 1).add(seq![x]).add(
                s.skip(1).skip(p - 1),
            ));
            assert(insert_sorted(s, x) =~= s.take(p).add(seq![x]).add(s.skip(p)));
        }
    }
}

/// Inserts `x` into a strictly sorted vector of indices, keeping it strictly
/// sorted; inserting an index already present changes nothing.
pub fn insert_index(v: &mut Vec<usize>, x: usize)
    requires
        strictly_sorted(old(v)@),
    ensures
        final(v)@ == insert_sorted(old(v)@, x),
        strictly_sorted(final(v)@),
        as_set(final(v)@) =~= as_set(old(v)@).insert(x),
{
    let len = v.len();
    let mut p: usize = 0;
    while p < len && v[p] < x
        invariant
            0 <= p <= len,
            len == v@.len(),
            v@ == old(v)@,
            forall|j: int| 0 <= j < p ==> v@[j] < x,
        decreases len - p,
    {
        p += 1;
    }
    if p < len && v[p] == x {
        proof {
            assert(as_set(v@).insert(x) =~= as_set(v@));
            lemma_insert_sorted_split(v@, x, p as int);
        }
        return;
    }
    proof {
        lemma_insert_sorted_split(v@, x, p as int);
    }
    v.insert(p, x);
    proof {
        assert(v@ =~= old(v)@.take(p as int).add(seq![x]).add(old(v)@.skip(p as int)));
        let new = v@;
        let olds = old(v)@;
        assert forall|i: int, j: int| 0 <= i < j < new.len() implies new[i] < new[j] by {
            if j < p {
                assert(new[i] == olds[i] && new[j] == olds[j]);
            } else if i > p {
                assert(new[i] == olds[i - 1] && new[j] == olds[j - 1]);
            } else if i < p && j == p {
                assert(new[i] == olds[i] && new[j] == x);
            } else if i == p && j > p {
                assert(new[i] == x && new[j] == olds[j - 1]);
                assert(olds[j - 1] >= x);
                assert(olds[j - 1] != x);
            } else if i < p && j > p {
                assert(new[i] == olds[i] && new[j] == olds[j - 1]);
                assert(olds[j - 1] >= x);
            }
        }
        assert forall|y: usize| as_set(new).contains(y) <==> as_set(olds).insert(x).contains(y) by {
            if y == x {
                assert(new[p as int] == x);
                assert(new.contains(x));
            } else {
                if new.contains(y) {
                    let i = choose|i: int| 0 <= i < new.len() && new[i] == y;
                    if i < p {
                        assert(olds[i] == y);
                    } else if i > p {
                        assert(olds[i - 1] == y);
                    }
                }
                if olds.contains(y) {
                    let i = choose|i: int| 0 <= i < olds.len() && olds[i] == y;
                    if i < p {
                        assert(new[i] == y);
                    } else {
                        assert(new[i + 1] == y);
                    }
                }
            }
        }
        assert(as_set(new) =~= as_set(olds).insert(x));
    }
}

/// A sequence of distinct indices, all below `n`, holds at most `n` of them.
pub proof fn lemma_distinct_bounded_len(s: Seq<usize>, n: int)
    requires
        forall|i: int, j: int| 0 <= i < j < s.len() ==> s[i] != s[j],
        forall|i: int| 0 <= i < s.len() ==> s[i] < n,
        n >= 0,
    ensures
        s.len() <= n,
{
    let si = s.map_values(|x: usize| x as int);
    assert(si.no_duplicates()) by {
        assert forall|i: int, j: int|
            0 <= i < si.len() && 0 <= j < si.len() && i != j implies si[i] != si[j] by {
            if i < j {
                assert(s[i] != s[j]);
            } else {
                assert(s[j] != s[i]);
            }
        }
    }
    si.unique_seq_to_set();
    assert(si.to_set().subset_of(set_int_range(0, n))) by {
        assert forall|x: int| si.to_set().contains(x) implies set_int_range(0, n).contains(x) by {
            let i = choose|i: int| 0 <= i < si.len() && si[i] == x;
            assert(s[i] < n);
        }
    }
    lemma_int_range(0, n);
    lemma_len_subset(si.to_set(), set_int_range(0, n));
}

/// A work queue over indices `0 .. n` that yields each distinct index at most
/// once: insertion after first sight is a no-op. Popped entries stay in
/// `items`, so `items` records the traversal order.
pub struct DedupQueue {
    pub items: Vec<usize>,
    pub head: usize,
    pub seen: Vec<bool>,
}

impl DedupQueue {
    pub open spec fn wf(&self) -> bool {
        &&& self.head <= self.items@.len()
        &&& self.items@.len() <= self.seen@.len()
        &&& forall|i: int, j: int|
            0 <= i < j < self.items@.len() ==> self.items@[i] != self.items@[j]
        &&& forall|i: int| 0 <= i < self.items@.len() ==> self.items@[i] < self.seen@.len()
        &&& forall|x: usize| x < self.seen@.len() ==> self.seen@[x as int] == self.items@.contains(x)
    }

    /// How many indices the queue can hold: one per node of the graph.
    pub open spec fn capacity(&self) -> int {
        self.seen@.len() as int
    }

    pub fn new(n: usize) -> (r: DedupQueue)
        ensures
            r.wf(),
            r.capacity() == n,
            r.items@ =~= Seq::<usize>::empty(),
            r.head == 0,
    {
        let mut seen: Vec<bool> = Vec::new();
        let mut i: usize = 0;
        while i < n
            invariant
                seen@.len() == i,
                i <= n,
                forall|j: int| 0 <= j < i ==> !seen@[j],
            decreases n - i,
        {
            seen.push(false);
            i += 1;
        }
        DedupQueue { items: Vec::new(), head: 0, seen }
    }

    pub fn insert_if_needed(&mut self, x: usize)
        requires
            old(self).wf(),
            x < old(self).capacity(),
        ensures
            final(self).wf(),
            final(self).capacity() == old(self).capacity(),
            final(self).head == old(self).head,
            final(self).items@ == if old(self).items@.contains(x) {
                old(self).items@
            } else {
                old(self).items@.push(x)
            },
    {
        if !self.seen[x] {
            self.seen.set(x, true);
            self.items.push(x);
            proof {
                assert forall|i: int, j: int|
                    0 <= i < j < self.items@.len() implies self.items@[i] != self.items@[j] by {
                    if j < self.items@.len() - 1 {
                        assert(self.items@[i] == old(self).items@[i]);
                        assert(self.items@[j] == old(self).items@[j]);
                    } else {
                        assert(self.items@[j] == x);
                        assert(self.items@[i] == old(self).items@[i]);
                        assert(!old(self).items@.contains(x));
                    }
                }
                lemma_distinct_bounded_len(self.items@, self.seen@.len() as int);
                assert forall|y: usize|
                    y < self.seen@.len() implies self.seen@[y as int] == self.items@.contains(
                    y,
                ) by {
                    if y == x {
                        assert(self.items@.last() == x);
                    } else {
                        assert(self.items@.contains(y) == old(self).items@.contains(y)) by {
                            if old(self).items@.contains(y) {
                                let i = choose|i: int|
                                    0 <= i < old(self).items@.len() && old(self).items@[i] == y;
                                assert(self.items@[i] == y);
                            }
                            if self.items@.contains(y) {
                                let i = choose|i: int|
                                    0 <= i < self.items@.len() && self.items@[i] == y;
                                assert(i < self.items@.len() - 1);
                                assert(old(self).items@[i] == y);
                            }
                        }
                    }
                }
            }
        }
    }

    pub fn pop(&mut self) -> (r: Option<usize>)
        requires
            old(self).wf(),
        ensures
            final(self).wf(),
            final(self).items == old(self).items,
            final(self).seen == old(self).seen,
            match r {
                Some(x) => {
                    &&& old(self).head < old(self).items@.len()
                    &&& x == old(self).items@[old(self).head as int]
                    &&& final(self).head == old(self).head + 1
                },
                None => {
                    &&& old(self).head == old(self).items@.len()
                    &&& final(self).head == old(self).head
                },
            },
    {
        if self.head < self.items.len() {
            let x = self.items[self.head];
            self.head += 1;
            Some(x)
        } else {
            None
        }
    }
}

/// Records the directed edges discovered during traversal, each at most once.
pub struct DependencyTree {
    pub edges: Vec<(usize, usize)>,
}

impl DependencyTree {
    pub fn new() -> (r: DependencyTree)
        ensures
            r.edges@ =~= Seq::<(usize, usize)>::empty(),
    {
        DependencyTree { edges: Vec::new() }
    }

    pub fn insert_if_needed(&mut self, from: usize, to: usize)
        ensures
            final(self).edges@ == if old(self).edges@.contains((from, to)) {
                old(self).edges@
            } else {
                old(self).edges@.push((from, to))
            },
    {
        let len = self.edges.len();
        let mut k: usize = 0;
        while k < len
            invariant
                0 <= k <= len,
                len == self.edges@.len(),
                self.edges == old(self).edges,
                forall|j: int| 0 <= j < k ==> self.edges@[j] != (from, to),
            decreases len - k,
        {
            let e = self.edges[k];
            if e.0 == from && e.1 == to {
                assert(self.edges@[k as int] == (from, to));
                return ;
            }
            k += 1;
        }
        assert(!self.edges@.contains((from, to)));
        self.edges.push((from, to));
    }
}

/// There is a path of at most `k` edges from `src` to `dst`.
pub open spec fn reaches(edge: spec_fn(int, int) -> bool, src: int, dst: int, k: nat) -> bool
    decreases k,
{
    dst == src || (k > 0 && exists|m: int|
        reaches(edge, src, m, (k - 1) as nat) && #[trigger] edge(m, dst))
}

/// `dst` is reachable from `src` through `edge`.
pub open spec fn reachable(edge: spec_fn(int, int) -> bool, src: int, dst: int) -> bool {
    exists|k: nat| reaches(edge, src, dst, k)
}

/// Reachability only grows when edges are added.
pub proof fn lemma_reaches_mono(
    e1: spec_fn(int, int) -> bool,
    e2: spec_fn(int, int) -> bool,
    src: int,
    dst: int,
    k: nat,
)
    requires
        forall|a: int, b: int| #[trigger] e1(a, b) ==> e2(a, b),
        reaches(e1, src, dst, k),
    ensures
        reaches(e2, src, dst, k),
    decreases k,
{
    if dst != src {
        let m = choose|m: int| reaches(e1, src, m, (k - 1) as nat) && #[trigger] e1(m, dst);
        lemma_reaches_mono(e1, e2, src, m, (k - 1) as nat);
        assert(e2(m, dst));
    }
}

/// Any set that holds the seed and is closed under the edges holds every
/// reachable node: together with soundness this pins the resolved collection
/// down to exactly the code reachable from the entry point.
pub proof fn lemma_reachable_included(
    edge: spec_fn(int, int) -> bool,
    included: spec_fn(int) -> bool,
    src: int,
    dst: int,
    k: nat,
)
    requires
        included(src),
        forall|a: int, b: int| included(a) && #[trigger] edge(a, b) ==> included(b),
        reaches(edge, src, dst, k),
    ensures
        included(dst),
    decreases k,
{
    if dst != src {
        let m = choose|m: int| reaches(edge, src, m, (k - 1) as nat) && #[trigger] edge(m, dst);
        lemma_reachable_included(edge, included, src, m, (k - 1) as nat);
    }
}

} // verus!
