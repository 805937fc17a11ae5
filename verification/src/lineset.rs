//! A set of line numbers kept as a strictly increasing vector (the
//! bookmark set), with the remapping used when edits move lines.

use vstd::prelude::*;

verus! {

/// Strictly increasing line numbers.
#[derive(Debug)]
pub struct LineSet {
    pub items: Vec<usize>,
}

/// `s` is strictly increasing.
pub open spec fn sorted_strict(s: Seq<usize>) -> bool {
    forall|i: int, j: int| 0 <= i < j < s.len() ==> s[i] < s[j]
}

/// The lines that `f` sends the members of `s` to (members sent to `None`
/// are dropped).
pub open spec fn image(s: Set<usize>, f: spec_fn(usize) -> Option<usize>) -> Set<usize> {
    Set::new(|x: usize| exists|l: usize| s.contains(l) && f(l) == Some(x))
}

impl LineSet {
    pub open spec fn wf(&self) -> bool {
        sorted_strict(self.items@)
    }

    /// The members.
    pub open spec fn set(&self) -> Set<usize> {
        self.items@.to_set()
    }

    /// The empty set.
    pub fn new() -> (r: LineSet)
        ensures
            r.wf(),
            r.set() == Set::<usize>::empty(),
            r.items@ == Seq::<usize>::empty(),
    {
        let r = LineSet { items: Vec::new() };
        proof {
            assert(r.set() =~= Set::<usize>::empty());
        }
        r
    }

    /// A copy.
    pub fn clone_set(&self) -> (r: LineSet)
        ensures
            r.items@ == self.items@,
    {
        let mut v: Vec<usize> = Vec::new();
        let mut i: usize = 0;
        while i < self.items.len()
            invariant
                i <= self.items@.len(),
                v@ == self.items@.take(i as int),
            decreases self.items@.len() - i,
        {
            v.push(self.items[i]);
            i = i + 1;
            proof {
                assert(v@ =~= self.items@.take(i as int));
            }
        }
        proof {
            assert(self.items@.take(i as int) =~= self.items@);
        }
        LineSet { items: v }
    }

    pub fn is_empty(&self) -> (r: bool)
        requires
            self.wf(),
        ensures
            r == (self.set() == Set::<usize>::empty()),
    {
        proof {
            if self.items@.len() > 0 {
                assert(self.set().contains(self.items@[0]));
            } else {
                assert(self.set() =~= Set::<usize>::empty());
            }
        }
        self.items.len() == 0
    }

    pub fn contains(&self, x: usize) -> (r: bool)
        ensures
            r == self.set().contains(x),
    {
        let mut i: usize = 0;
        while i < self.items.len()
            invariant
                i <= self.items@.len(),
                forall|j: int| 0 <= j < i ==> self.items@[j] != x,
            decreases self.items@.len() - i,
        {
            if self.items[i] == x {
                proof {
                    assert(self.items@.contains(x));
                }
                return true;
            }
            i = i + 1;
        }
        false
    }

    /// Adds `x`.
    pub fn insert(&mut self, x: usize)
        requires
            old(self).wf(),
        ensures
            final(self).wf(),
            final(self).set() == old(self).set().insert(x),
    {
        let mut i: usize = 0;
        while i < self.items.len() && self.items[i] < x
            invariant
                self.wf(),
                i <= self.items@.len(),
                forall|j: int| 0 <= j < i ==> self.items@[j] < x,
            decreases self.items@.len() - i,
        {
            i = i + 1;
        }
        if i < self.items.len() && self.items[i] == x {
            proof {
                assert(self.set() =~= self.set().insert(x)) by {
                    assert(self.items@.contains(x));
                }
            }
            return;
        }
        let ghost old_items = self.items@;
        self.items.insert(i, x);
        proof {
            let n = self.items@;
            assert(n =~= old_items.take(i as int).push(x) + old_items.skip(i as int));
            assert forall|a: int, b: int| 0 <= a < b < n.len() implies n[a] < n[b] by {
                if b < i {
                } else if b == i {
                } else if a < i {
                    assert(n[b] == old_items[b - 1]);
                } else if a == i {
                    assert(n[b] == old_items[b - 1]);
                    assert(old_items[i as int] > x);
                    if b - 1 > i {
                        assert(old_items[i as int] < old_items[b - 1]);
                    }
                } else {
                    assert(n[a] == old_items[a - 1] && n[b] == old_items[b - 1]);
                }
            }
            assert forall|y: usize| #[trigger] n.contains(y) == old_items.to_set().insert(x).contains(y) by {
                if n.contains(y) {
                    let k = choose|k: int| 0 <= k < n.len() && n[k] == y;
                    if k < i {
                        assert(old_items[k] == y);
                    } else if k > i {
                        assert(old_items[k - 1] == y);
                    }
                }
                if old_items.contains(y) {
                    let k = choose|k: int| 0 <= k < old_items.len() && old_items[k] == y;
                    if k < i {
                        assert(n[k] == y);
                    } else {
                        assert(n[k + 1] == y);
                    }
                }
                if y == x {
                    assert(n[i as int] == x);
                }
            }
            assert(self.set() =~= old_items.to_set().insert(x));
        }
    }

    /// Removes `x`; returns whether it was there.
    pub fn remove(&mut self, x: usize) -> (r: bool)
        requires
            old(self).wf(),
        ensures
            final(self).wf(),
            final(self).set() == old(self).set().remove(x),
            r == old(self).set().contains(x),
    {
        let mut i: usize = 0;
        while i < self.items.len() && self.items[i] != x
            invariant
                i <= self.items@.len(),
                forall|j: int| 0 <= j < i ==> self.items@[j] != x,
            decreases self.items@.len() - i,
        {
            i = i + 1;
        }
        if i == self.items.len() {
            proof {
                assert(!self.items@.contains(x));
                assert(self.set() =~= self.set().remove(x));
            }
            return false;
        }
        let ghost old_items = self.items@;
        self.items.remove(i);
        proof {
            let n = self.items@;
            assert(n =~= old_items.take(i as int) + old_items.skip(i + 1));
            assert forall|a: int, b: int| 0 <= a < b < n.len() implies n[a] < n[b] by {
                if a < i && b >= i {
                    assert(n[b] == old_items[b + 1]);
                } else if a >= i {
                    assert(n[a] == old_items[a + 1] && n[b] == old_items[b + 1]);
                }
            }
            assert forall|y: usize| #[trigger] n.contains(y) == old_items.to_set().remove(x).contains(y) by {
                if n.contains(y) {
                    let k = choose|k: int| 0 <= k < n.len() && n[k] == y;
                    if k < i {
                        assert(old_items[k] == y);
                        assert(old_items[k] < old_items[i as int]);
                    } else {
                        assert(old_items[k + 1] == y);
                        assert(old_items[i as int] < old_items[k + 1]);
                    }
                }
                if old_items.contains(y) && y != x {
                    let k = choose|k: int| 0 <= k < old_items.len() && old_items[k] == y;
                    if k < i {
                        assert(n[k] == y);
                    } else {
                        assert(k != i);
                        assert(n[k - 1] == y);
                    }
                }
            }
            assert(self.set() =~= old_items.to_set().remove(x));
            assert(old_items.contains(x));
        }
        true
    }

    /// Empties the set.
    pub fn clear(&mut self)
        ensures
            final(self).wf(),
            final(self).set() == Set::<usize>::empty(),
    {
        self.items = Vec::new();
        proof {
            assert(self.set() =~= Set::<usize>::empty());
        }
    }

    /// The members in increasing order.
    pub fn to_vec(&self) -> (r: Vec<usize>)
        ensures
            r@ == self.items@,
    {
        self.clone_set().items
    }
}

/// The set of `f`-images of the members of `old` (`None` drops a member).
/// `f` must agree with the spec function `sf`.
pub fn remap<F: Fn(usize) -> Option<usize>>(old: &LineSet, f: F, Ghost(sf): Ghost<spec_fn(usize) -> Option<usize>>) -> (r: LineSet)
    requires
        old.wf(),
        forall|l: usize| #[trigger] f.requires((l,)),
        forall|l: usize, o: Option<usize>| #[trigger] f.ensures((l,), o) ==> o == sf(l),
    ensures
        r.wf(),
        r.set() == image(old.set(), sf),
{
    let mut out = LineSet::new();
    let mut i: usize = 0;
    while i < old.items.len()
        invariant
            old.wf(),
            i <= old.items@.len(),
            out.wf(),
            forall|l: usize| #[trigger] f.requires((l,)),
            forall|l: usize, o: Option<usize>| #[trigger] f.ensures((l,), o) ==> o == sf(l),
            out.set() == image(old.items@.take(i as int).to_set(), sf),
        decreases old.items@.len() - i,
    {
        let l = old.items[i];
        let m = f(l);
        let ghost before = out.set();
        match m {
            Some(x) => { out.insert(x); },
            None => {},
        }
        proof {
            let s0 = old.items@.take(i as int).to_set();
            let s1 = old.items@.take(i + 1).to_set();
            assert(s1 =~= s0.insert(l)) by {
                assert(old.items@.take(i + 1) =~= old.items@.take(i as int).push(l));
                assert forall|y: usize| s1.contains(y) == s0.insert(l).contains(y) by {
                    if s1.contains(y) {
                        let t1 = old.items@.take(i + 1);
                        let k = choose|k: int| 0 <= k < t1.len() && #[trigger] t1[k] == y;
                        if k < i {
                            assert(old.items@.take(i as int)[k] == y);
                        }
                    }
                    if s0.contains(y) {
                        let t0 = old.items@.take(i as int);
                        let k = choose|k: int| 0 <= k < t0.len() && #[trigger] t0[k] == y;
                        assert(old.items@.take(i + 1)[k] == y);
                    }
                    if y == l {
                        assert(old.items@.take(i + 1)[i as int] == y);
                    }
                }
            }
            assert(out.set() =~= image(s1, sf)) by {
                assert forall|x: usize| out.set().contains(x) == image(s1, sf).contains(x) by {
                    if image(s1, sf).contains(x) {
                        let w = choose|w: usize| s1.contains(w) && sf(w) == Some(x);
                        if w != l {
                            assert(s0.contains(w));
                            assert(image(s0, sf).contains(x));
                        }
                    }
                    if image(s0, sf).contains(x) {
                        let w = choose|w: usize| s0.contains(w) && sf(w) == Some(x);
                        assert(s1.contains(w));
                    }
                    if m == Some(x) {
                        assert(s1.contains(l));
                    }
                }
            }
        }
        i = i + 1;
    }
    proof {
        assert(old.items@.take(i as int) =~= old.items@);
    }
    out
}

} // verus!
