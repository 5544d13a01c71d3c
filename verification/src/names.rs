//! Namespace tables: names in source order, looked up by first occurrence.
use vstd::prelude::*;

use crate::raw::str_eq;

verus! {

/// `i` is the first index at which `n` occurs in `ns`.
pub open spec fn is_first_match(ns: Seq<Seq<char>>, n: Seq<char>, i: int) -> bool {
    &&& 0 <= i < ns.len()
    &&& ns[i] == n
    &&& forall|j: int| 0 <= j < i ==> ns[j] != n
}

/// Whether `n` occurs in `ns`.
pub open spec fn contains_name(ns: Seq<Seq<char>>, n: Seq<char>) -> bool {
    exists|i: int| 0 <= i < ns.len() && ns[i] == n
}

/// The first index at which `n` occurs in `ns`, if any.
pub open spec fn index_of_name(ns: Seq<Seq<char>>, n: Seq<char>) -> Option<int>
    decreases ns.len(),
{
    if ns.len() == 0 {
        None
    } else if ns.first() == n {
        Some(0)
    } else {
        match index_of_name(ns.skip(1), n) {
            Some(i) => Some(i + 1),
            None => None,
        }
    }
}

/// What an index returned by `index_of_name` means: the first match, in
/// range; and `None` means the name is absent.
pub proof fn lemma_index_of_name_props(ns: Seq<Seq<char>>, n: Seq<char>)
    ensures
        match index_of_name(ns, n) {
            Some(i) => is_first_match(ns, n, i),
            None => !contains_name(ns, n),
        },
    decreases ns.len(),
{
    if ns.len() > 0 && ns.first() != n {
        lemma_index_of_name_props(ns.skip(1), n);
        match index_of_name(ns.skip(1), n) {
            Some(i) => {
                assert forall|j: int| 0 <= j < i + 1 implies ns[j] != n by {
                    if j > 0 {
                        assert(ns.skip(1)[j - 1] == ns[j]);
                    }
                }
                assert(ns.skip(1)[i] == ns[i + 1]);
            },
            None => {
                if contains_name(ns, n) {
                    let j = choose|j: int| 0 <= j < ns.len() && ns[j] == n;
                    assert(ns.skip(1)[j - 1] == ns[j]);
                }
            },
        }
    }
}

/// No two positions of `ns` hold the same name.
pub open spec fn distinct_names(ns: Seq<Seq<char>>) -> bool {
    forall|i: int, j: int| 0 <= i < j < ns.len() ==> ns[i] != ns[j]
}

pub proof fn lemma_first_match_is_index(ns: Seq<Seq<char>>, n: Seq<char>, i: int)
    requires
        is_first_match(ns, n, i),
    ensures
        index_of_name(ns, n) == Some(i),
    decreases ns.len(),
{
    if i == 0 {
    } else {
        assert(ns.first() != n);
        assert forall|j: int| 0 <= j < i - 1 implies ns.skip(1)[j] != n by {
            assert(ns.skip(1)[j] == ns[j + 1]);
        }
        assert(ns.skip(1)[i - 1] == ns[i]);
        lemma_first_match_is_index(ns.skip(1), n, i - 1);
    }
}

/// A table mapping each name to its index: the position in insertion order.
pub struct NameTable {
    pub names: Vec<String>,
}

impl View for NameTable {
    type V = Seq<Seq<char>>;

    open spec fn view(&self) -> Seq<Seq<char>> {
        self.names@.map(|i: int, s: String| s@)
    }
}

impl NameTable {
    pub fn new() -> (r: NameTable)
        ensures
            r@ =~= Seq::<Seq<char>>::empty(),
    {
        NameTable { names: Vec::new() }
    }

    pub fn len(&self) -> (r: usize)
        ensures
            r == self@.len(),
    {
        self.names.len()
    }

    /// The index of the first entry named `n`, if the table holds one.
    pub fn lookup(&self, n: &str) -> (r: Option<usize>)
        ensures
            match r {
                Some(i) => is_first_match(self@, n@, i as int) && index_of_name(self@, n@) == Some(
                    i as int,
                ),
                None => index_of_name(self@, n@) is None && !contains_name(self@, n@),
            },
    {
        let len = self.names.len();
        let mut k: usize = 0;
        while k < len
            invariant
                0 <= k <= len,
                len == self@.len(),
                forall|j: int| 0 <= j < k ==> self@[j] != n@,
            decreases len - k,
        {
            if str_eq(self.names[k].as_str(), n) {
                proof {
                    lemma_first_match_is_index(self@, n@, k as int);
                }
                return Some(k);
            }
            k += 1;
        }
        proof {
            assert(!contains_name(self@, n@));
            lemma_index_of_name_props(self@, n@);
        }
        None
    }

    pub fn push(&mut self, n: String)
        ensures
            final(self)@ =~= old(self)@.push(n@),
    {
        self.names.push(n);
    }
}

} // verus!
