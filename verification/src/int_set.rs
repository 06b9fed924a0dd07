//! A set of integers stored as a duplicate-free vector, so that a handler
//! can walk its elements deterministically.  The broadcast workload keeps
//! its observed messages and each peer's known set in this type.

use vstd::prelude::*;

verus! {

broadcast use vstd::seq_lib::group_seq_properties;

/// The set of elements of a sequence.
pub open spec fn seq_elems(s: Seq<isize>) -> Set<isize> {
    Set::new(|x: isize| s.contains(x))
}

/// A finite set of `isize` values, viewed as a `Set<isize>`.
#[derive(Debug)]
pub struct IntSet {
    items: Vec<isize>,
}

impl View for IntSet {
    type V = Set<isize>;

    closed spec fn view(&self) -> Set<isize> {
        seq_elems(self.items@)
    }
}

impl IntSet {
    /// The stored elements, in storage order.
    pub closed spec fn spec_seq(self) -> Seq<isize> {
        self.items@
    }

    /// No element is stored twice.
    pub closed spec fn wf(self) -> bool {
        forall|i: int, j: int|
            0 <= i < j < self.items@.len() ==> #[trigger] self.items@[i] != #[trigger] self.items@[j]
    }

    /// The empty set.
    pub fn new() -> (r: IntSet)
        ensures
            r.wf(),
            r@ =~= Set::<isize>::empty(),
            r.spec_seq() == Seq::<isize>::empty(),
    {
        IntSet { items: Vec::new() }
    }

    /// The set of the elements of `v`, duplicates collapsed.
    pub fn from_vec(v: &Vec<isize>) -> (r: IntSet)
        ensures
            r.wf(),
            r@ =~= seq_elems(v@),
    {
        let mut r = IntSet::new();
        let n = v.len();
        let mut i: usize = 0;
        while i < n
            invariant
                i <= n,
                n == v@.len(),
                r.wf(),
                r@ =~= seq_elems(v@.take(i as int)),
            decreases n - i,
        {
            r.insert(v[i]);
            proof {
                assert(v@.take(i + 1) =~= v@.take(i as int).push(v@[i as int]));
                assert(r@ =~= seq_elems(v@.take(i + 1)));
            }
            i = i + 1;
        }
        proof {
            assert(v@.take(n as int) =~= v@);
        }
        r
    }

    /// How many elements the set holds.
    pub fn len(&self) -> (r: usize)
        requires
            self.wf(),
        ensures
            r == self.spec_seq().len(),
            r == 0 <==> self@ =~= Set::<isize>::empty(),
    {
        proof {
            if self.items@.len() > 0 {
                assert(self.items@.contains(self.items@[0]));
                assert(self@.contains(self.items@[0]));
            }
        }
        self.items.len()
    }

    /// Whether the set is empty.
    pub fn is_empty(&self) -> (r: bool)
        requires
            self.wf(),
        ensures
            r <==> self@ =~= Set::<isize>::empty(),
    {
        self.len() == 0
    }

    /// Whether `x` is in the set.
    pub fn contains(&self, x: isize) -> (r: bool)
        ensures
            r == self@.contains(x),
    {
        let n = self.items.len();
        let mut i: usize = 0;
        while i < n
            invariant
                i <= n,
                n == self.items@.len(),
                forall|j: int| 0 <= j < i ==> #[trigger] self.items@[j] != x,
            decreases n - i,
        {
            if self.items[i] == x {
                return true;
            }
            i = i + 1;
        }
        false
    }

    /// Adds `x` to the set.
    pub fn insert(&mut self, x: isize)
        requires
            old(self).wf(),
        ensures
            final(self).wf(),
            final(self)@ =~= old(self)@.insert(x),
    {
        if !self.contains(x) {
            let ghost prev = self.items@;
            self.items.push(x);
            proof {
                assert(self.items@ == prev.push(x));
                assert(forall|j: int| 0 <= j < prev.len() ==> self.items@[j] == prev[j]);
                assert(self.items@[prev.len() as int] == x);
                assert(self@ =~= old(self)@.insert(x));
            }
        } else {
            proof {
                assert(self@ =~= old(self)@.insert(x));
            }
        }
    }

    /// Adds every element of `other` to the set.
    pub fn merge(&mut self, other: &IntSet)
        requires
            old(self).wf(),
        ensures
            final(self).wf(),
            final(self)@ =~= old(self)@.union(other@),
    {
        let n = other.items.len();
        let mut i: usize = 0;
        while i < n
            invariant
                i <= n,
                n == other.items@.len(),
                self.wf(),
                self@ =~= old(self)@.union(seq_elems(other.items@.take(i as int))),
            decreases n - i,
        {
            self.insert(other.items[i]);
            proof {
                assert(other.items@.take(i + 1) =~= other.items@.take(i as int).push(
                    other.items@[i as int],
                ));
                assert(self@ =~= old(self)@.union(seq_elems(other.items@.take(i + 1))));
            }
            i = i + 1;
        }
        proof {
            assert(other.items@.take(n as int) =~= other.items@);
        }
    }

    /// The elements of this set that are not in `other`.
    pub fn minus(&self, other: &IntSet) -> (r: IntSet)
        requires
            self.wf(),
        ensures
            r.wf(),
            r@ =~= self@.difference(other@),
    {
        let mut items: Vec<isize> = Vec::new();
        let n = self.items.len();
        let mut i: usize = 0;
        while i < n
            invariant
                i <= n,
                n == self.items@.len(),
                self.wf(),
                forall|a: int, b: int|
                    0 <= a < b < items@.len() ==> #[trigger] items@[a] != #[trigger] items@[b],
                forall|x: isize|
                    #[trigger] items@.contains(x) <==> self.items@.take(i as int).contains(x)
                        && !other@.contains(x),
            decreases n - i,
        {
            let x = self.items[i];
            let ghost prev = items@;
            proof {
                assert(self.items@.take(i + 1) =~= self.items@.take(i as int).push(
                    self.items@[i as int],
                ));
                assert(!self.items@.take(i as int).contains(self.items@[i as int])) by {
                    if self.items@.take(i as int).contains(self.items@[i as int]) {
                        let idx = choose|idx: int|
                            0 <= idx < i && #[trigger] self.items@.take(i as int)[idx]
                                == self.items@[i as int];
                        assert(self.items@[idx] == self.items@[i as int]);
                    }
                }
            }
            if !other.contains(x) {
                items.push(x);
                proof {
                    assert(items@ == prev.push(x));
                    assert(forall|j: int| 0 <= j < prev.len() ==> items@[j] == prev[j]);
                    assert(items@[prev.len() as int] == x);
                    assert(!prev.contains(x));
                    assert forall|a: int| 0 <= a < prev.len() implies items@[a] != x by {
                        if items@[a] == x {
                            assert(prev[a] == x);
                            assert(prev.contains(x));
                        }
                    }
                }
            }
            proof {
                assert(forall|y: isize| #[trigger]
                    items@.contains(y) <==> self.items@.take(i + 1).contains(y) && !other@.contains(
                        y,
                    ));
            }
            i = i + 1;
        }
        proof {
            assert(self.items@.take(n as int) =~= self.items@);
        }
        let r = IntSet { items };
        proof {
            assert(r@ =~= self@.difference(other@));
        }
        r
    }

    /// An equal set with its own storage.
    pub fn duplicate(&self) -> (r: IntSet)
        requires
            self.wf(),
        ensures
            r.wf(),
            r@ =~= self@,
            r.spec_seq() == self.spec_seq(),
    {
        let mut items: Vec<isize> = Vec::new();
        let n = self.items.len();
        let mut i: usize = 0;
        while i < n
            invariant
                i <= n,
                n == self.items@.len(),
                items@ =~= self.items@.take(i as int),
            decreases n - i,
        {
            items.push(self.items[i]);
            proof {
                assert(items@ =~= self.items@.take(i + 1));
            }
            i = i + 1;
        }
        proof {
            assert(items@ =~= self.items@);
        }
        IntSet { items }
    }

    /// The elements, in storage order and free of duplicates.
    pub fn elements(&self) -> (r: &Vec<isize>)
        ensures
            r@ == self.spec_seq(),
            forall|x: isize| r@.contains(x) <==> self@.contains(x),
    {
        &self.items
    }
}

} // verus!
