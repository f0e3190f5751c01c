use vstd::prelude::*;

verus! {

/// The set of live structural edges of a genome, as `(from, to)` pairs of
/// local node ids. Backed by a vector without duplicates so that one member
/// can be drawn uniformly at random by index.
pub struct EdgeSet {
    pub items: Vec<(usize, usize)>,
}

pub open spec fn pair_seq_contains(s: Seq<(usize, usize)>, a: usize, b: usize) -> bool {
    exists|i: int| 0 <= i < s.len() && #[trigger] s[i] == (a, b)
}

impl EdgeSet {
    pub open spec fn distinct(self) -> bool {
        forall|i: int, j: int|
            0 <= i < j < self.items@.len() ==> #[trigger] self.items@[i] != #[trigger] self.items@[j]
    }

    pub open spec fn spec_contains(self, a: usize, b: usize) -> bool {
        pair_seq_contains(self.items@, a, b)
    }

    /// The members as a mathematical set of pairs.
    pub open spec fn to_set(self) -> Set<(usize, usize)> {
        self.items@.to_set()
    }

    pub fn new() -> (s: EdgeSet)
        ensures
            s.items@ =~= Seq::<(usize, usize)>::empty(),
            s.distinct(),
    {
        EdgeSet { items: Vec::new() }
    }

    pub fn len(&self) -> (r: usize)
        ensures
            r == self.items@.len(),
    {
        self.items.len()
    }

    pub fn nth(&self, i: usize) -> (r: (usize, usize))
        requires
            i < self.items@.len(),
        ensures
            r == self.items@[i as int],
    {
        self.items[i]
    }

    pub fn contains(&self, a: usize, b: usize) -> (r: bool)
        ensures
            r == self.spec_contains(a, b),
    {
        let mut k: usize = 0;
        while k < self.items.len()
            invariant
                0 <= k <= self.items@.len(),
                forall|i: int| 0 <= i < k ==> #[trigger] self.items@[i] != (a, b),
            decreases self.items@.len() - k,
        {
            if self.items[k].0 == a && self.items[k].1 == b {
                return true;
            }
            k += 1;
        }
        false
    }

    /// Adds the pair when absent; keeps the set unchanged when present.
    pub fn insert(&mut self, a: usize, b: usize)
        requires
            old(self).distinct(),
        ensures
            final(self).distinct(),
            final(self).items@ == (if old(self).spec_contains(a, b) {
                old(self).items@
            } else {
                old(self).items@.push((a, b))
            }),
            forall|x: usize, y: usize|
                final(self).spec_contains(x, y) <==> (old(self).spec_contains(x, y) || (x == a && y
                    == b)),
    {
        if !self.contains(a, b) {
            self.items.push((a, b));
            assert forall|x: usize, y: usize|
                self.spec_contains(x, y) <==> (old(self).spec_contains(x, y) || (x == a && y
                    == b)) by {
                if old(self).spec_contains(x, y) {
                    let i = choose|i: int|
                        0 <= i < old(self).items@.len() && old(self).items@[i] == (x, y);
                    assert(self.items@[i] == (x, y));
                }
                if x == a && y == b {
                    assert(self.items@[self.items@.len() - 1] == (x, y));
                }
                if self.spec_contains(x, y) {
                    let i = choose|i: int| 0 <= i < self.items@.len() && self.items@[i] == (x, y);
                    if i < self.items@.len() - 1 {
                        assert(old(self).items@[i] == (x, y));
                    }
                }
            }
        }
    }

    /// Removes the pair when present; keeps the set unchanged when absent.
    pub fn remove(&mut self, a: usize, b: usize)
        requires
            old(self).distinct(),
        ensures
            final(self).distinct(),
            final(self).items@.len() == old(self).items@.len() - (if old(self).spec_contains(a, b) {
                1int
            } else {
                0int
            }),
            forall|x: usize, y: usize|
                final(self).spec_contains(x, y) <==> (old(self).spec_contains(x, y) && !(x == a && y
                    == b)),
    {
        let ghost pre = self.items@;
        let mut k: usize = 0;
        while k < self.items.len()
            invariant
                0 <= k <= self.items@.len(),
                self.items@ == pre,
                pre == old(self).items@,
                forall|i: int, j: int|
                    0 <= i < j < pre.len() ==> #[trigger] pre[i] != #[trigger] pre[j],
                forall|i: int| 0 <= i < k ==> #[trigger] pre[i] != (a, b),
            decreases self.items@.len() - k,
        {
            if self.items[k].0 == a && self.items[k].1 == b {
                proof {
                    assert(pre[k as int].0 == a && pre[k as int].1 == b);
                    assert(pre[k as int] == (a, b));
                }
                let _ = self.items.remove(k);
                proof {
                    assert(self.items@ == pre.remove(k as int));
                    pre.remove_ensures(k as int);
                    assert(self.items@.len() == pre.len() - 1);
                    assert forall|x: usize, y: usize|
                        self.spec_contains(x, y) <==> (pair_seq_contains(pre, x, y) && !(x == a
                            && y == b)) by {
                        if self.spec_contains(x, y) {
                            let i = choose|i: int|
                                0 <= i < self.items@.len() && #[trigger] self.items@[i] == (x, y);
                            if i < k {
                                assert(pre[i] == (x, y));
                                assert(pre[i] != pre[k as int]);
                            } else {
                                assert(self.items@[i] == pre[i + 1]);
                                assert(pre[i + 1] == (x, y));
                                assert(pre[i + 1] != pre[k as int]);
                            }
                            assert((x, y) != (a, b));
                            assert(!(x == a && y == b));
                        }
                        if pair_seq_contains(pre, x, y) && !(x == a && y == b) {
                            let i = choose|i: int| 0 <= i < pre.len() && #[trigger] pre[i] == (x, y);
                            assert((x, y) != (a, b));
                            assert(i != k);
                            if i < k {
                                assert(self.items@[i] == (x, y));
                            } else {
                                assert(self.items@[i - 1] == pre[i]);
                                assert(self.items@[i - 1] == (x, y));
                            }
                            assert(self.spec_contains(x, y));
                        }
                    }
                    assert forall|i: int, j: int|
                        0 <= i < j < self.items@.len() implies #[trigger] self.items@[i]
                        != #[trigger] self.items@[j] by {
                        let pi: int = if i < k { i } else { i + 1 };
                        let pj: int = if j < k { j } else { j + 1 };
                        assert(self.items@[i] == pre[pi]);
                        assert(self.items@[j] == pre[pj]);
                        assert(pre[pi] != pre[pj]);
                    }
                }
                return ;
            }
            k += 1;
        }
    }
}

/// A strictly sorted set of global node ids; the position of an id is the
/// dense local id assigned to it when a genome is rebuilt from gene records.
pub struct IdSet {
    pub items: Vec<usize>,
}

impl IdSet {
    pub open spec fn sorted(self) -> bool {
        forall|i: int, j: int|
            0 <= i < j < self.items@.len() ==> #[trigger] self.items@[i] < #[trigger] self.items@[j]
    }

    pub open spec fn spec_contains(self, x: usize) -> bool {
        exists|i: int| 0 <= i < self.items@.len() && #[trigger] self.items@[i] == x
    }

    pub fn new() -> (s: IdSet)
        ensures
            s.items@ =~= Seq::<usize>::empty(),
            s.sorted(),
    {
        IdSet { items: Vec::new() }
    }

    pub fn len(&self) -> (r: usize)
        ensures
            r == self.items@.len(),
    {
        self.items.len()
    }

    pub fn nth(&self, i: usize) -> (r: usize)
        requires
            i < self.items@.len(),
        ensures
            r == self.items@[i as int],
    {
        self.items[i]
    }

    /// The dense local id of `x`: its position in the sorted order.
    pub fn rank(&self, x: usize) -> (r: Option<usize>)
        requires
            self.sorted(),
        ensures
            match r {
                Option::None => !self.spec_contains(x),
                Option::Some(i) => (i as int) < self.items@.len() && self.items@[i as int] == x,
            },
    {
        let mut k: usize = 0;
        while k < self.items.len()
            invariant
                0 <= k <= self.items@.len(),
                forall|i: int| 0 <= i < k ==> #[trigger] self.items@[i] != x,
            decreases self.items@.len() - k,
        {
            if self.items[k] == x {
                return Some(k);
            }
            k += 1;
        }
        None
    }

    /// Adds `x`, keeping the ids strictly sorted; present ids are left alone.
    pub fn insert(&mut self, x: usize)
        requires
            old(self).sorted(),
        ensures
            final(self).sorted(),
            forall|y: usize|
                final(self).spec_contains(y) <==> (old(self).spec_contains(y) || y == x),
            final(self).items@.len() == old(self).items@.len() + (if old(self).spec_contains(x) {
                0int
            } else {
                1int
            }),
    {
        let ghost pre = self.items@;
        let mut k: usize = 0;
        while k < self.items.len()
            invariant
                0 <= k <= self.items@.len(),
                self.items@ == pre,
                old(self).sorted(),
                pre == old(self).items@,
                forall|i: int| 0 <= i < k ==> #[trigger] self.items@[i] < x,
            decreases self.items@.len() - k,
        {
            if self.items[k] == x {
                proof {
                    assert(old(self).spec_contains(x));
                    assert forall|y: usize|
                        self.spec_contains(y) <==> (old(self).spec_contains(y) || y == x) by {}
                }
                return ;
            }
            if self.items[k] > x {
                self.items.insert(k, x);
                proof {
                    assert(self.items@ == pre.insert(k as int, x));
                    assert forall|i: int, j: int|
                        0 <= i < j < self.items@.len() implies #[trigger] self.items@[i]
                        < #[trigger] self.items@[j] by {
                        assert(self.items@[i] == (if i < k {
                            pre[i]
                        } else if i == k {
                            x
                        } else {
                            pre[i - 1]
                        }));
                        assert(self.items@[j] == (if j < k {
                            pre[j]
                        } else if j == k {
                            x
                        } else {
                            pre[j - 1]
                        }));
                    }
                    assert forall|y: usize|
                        self.spec_contains(y) <==> (old(self).spec_contains(y) || y == x) by {
                        if self.spec_contains(y) {
                            let i = choose|i: int|
                                0 <= i < self.items@.len() && #[trigger] self.items@[i] == y;
                            if i < k {
                                assert(pre[i] == y);
                            } else if i > k {
                                assert(pre[i - 1] == y);
                            }
                        }
                        if old(self).spec_contains(y) {
                            let i = choose|i: int|
                                0 <= i < old(self).items@.len() && #[trigger] old(self).items@[i] == y;
                            assert(pre[i] == y);
                            if i < k {
                                assert(self.items@[i] == y);
                            } else {
                                assert(self.items@[i + 1] == y);
                            }
                        }
                        if y == x {
                            assert(self.items@[k as int] == y);
                        }
                    }
                    assert(!old(self).spec_contains(x)) by {
                        if old(self).spec_contains(x) {
                            let i = choose|i: int|
                                0 <= i < old(self).items@.len() && #[trigger] old(self).items@[i] == x;
                            assert(pre[i] == x);
                            assert(i >= k);
                            assert(i > k ==> pre[k as int] < pre[i]);
                        }
                    }
                }
                return ;
            }
            k += 1;
        }
        self.items.push(x);
        proof {
            assert forall|i: int, j: int|
                0 <= i < j < self.items@.len() implies #[trigger] self.items@[i] < #[trigger] self
                .items@[j] by {
                if j < self.items@.len() - 1 {
                    assert(self.items@[i] == pre[i] && self.items@[j] == pre[j]);
                } else {
                    assert(self.items@[i] == pre[i]);
                }
            }
            assert forall|y: usize|
                self.spec_contains(y) <==> (old(self).spec_contains(y) || y == x) by {
                if self.spec_contains(y) {
                    let i = choose|i: int|
                        0 <= i < self.items@.len() && #[trigger] self.items@[i] == y;
                    if i < self.items@.len() - 1 {
                        assert(pre[i] == y);
                    }
                }
                if old(self).spec_contains(y) {
                    let i = choose|i: int|
                        0 <= i < old(self).items@.len() && #[trigger] old(self).items@[i] == y;
                    assert(pre[i] == y);
                    assert(self.items@[i] == y);
                }
                if y == x {
                    assert(self.items@[self.items@.len() - 1] == y);
                }
            }
            assert(!old(self).spec_contains(x)) by {
                if old(self).spec_contains(x) {
                    let i = choose|i: int|
                        0 <= i < old(self).items@.len() && #[trigger] old(self).items@[i] == x;
                    assert(pre[i] == x);
                }
            }
        }
    }
}

pub open spec fn pair_id_contains(s: Seq<usize>, x: usize) -> bool {
    exists|i: int| 0 <= i < s.len() && #[trigger] s[i] == x
}

/// A registry from a pair of global ids to a stable id (an innovation number
/// or a node identity). Keys are never removed and never repeated.
pub struct PairMap {
    pub items: Vec<(usize, usize, usize)>,
}

impl PairMap {
    pub open spec fn distinct_keys(self) -> bool {
        forall|i: int, j: int|
            0 <= i < j < self.items@.len() ==> !(#[trigger] self.items@[i].0 == #[trigger] self
                .items@[j].0 && self.items@[i].1 == self.items@[j].1)
    }

    /// The registry as a mathematical map from key pairs to ids.
    pub open spec fn as_map(self) -> Map<(usize, usize), usize> {
        Map::new(
            |k: (usize, usize)| exists|i: int|
                0 <= i < self.items@.len() && (#[trigger] self.items@[i]).0 == k.0
                    && self.items@[i].1 == k.1,
            |k: (usize, usize)| {
                let i = choose|i: int|
                    0 <= i < self.items@.len() && (#[trigger] self.items@[i]).0 == k.0
                        && self.items@[i].1 == k.1;
                self.items@[i].2
            },
        )
    }

    pub fn new() -> (m: PairMap)
        ensures
            m.items@ =~= Seq::<(usize, usize, usize)>::empty(),
            m.distinct_keys(),
            m.as_map() =~= Map::<(usize, usize), usize>::empty(),
    {
        let m = PairMap { items: Vec::new() };
        proof {
            assert(forall|k: (usize, usize)| !(#[trigger] m.as_map().dom().contains(k)));
        }
        m
    }

    pub fn get(&self, a: usize, b: usize) -> (r: Option<usize>)
        requires
            self.distinct_keys(),
        ensures
            match r {
                Option::None => !self.as_map().dom().contains((a, b)),
                Option::Some(v) => self.as_map().dom().contains((a, b)) && self.as_map()[(a, b)]
                    == v,
            },
    {
        let mut k: usize = 0;
        while k < self.items.len()
            invariant
                0 <= k <= self.items@.len(),
                self.distinct_keys(),
                forall|i: int|
                    0 <= i < k ==> !((#[trigger] self.items@[i]).0 == a && self.items@[i].1 == b),
            decreases self.items@.len() - k,
        {
            if self.items[k].0 == a && self.items[k].1 == b {
                proof {
                    let i = choose|i: int|
                        0 <= i < self.items@.len() && (#[trigger] self.items@[i]).0 == a
                            && self.items@[i].1 == b;
                    assert(i == k);
                }
                return Some(self.items[k].2);
            }
            k += 1;
        }
        None
    }

    pub fn insert(&mut self, a: usize, b: usize, v: usize)
        requires
            old(self).distinct_keys(),
            !old(self).as_map().dom().contains((a, b)),
        ensures
            final(self).distinct_keys(),
            final(self).as_map() =~= old(self).as_map().insert((a, b), v),
    {
        self.items.push((a, b, v));
        proof {
            assert forall|i: int|
                0 <= i < old(self).items@.len() implies !((#[trigger] old(self).items@[i]).0 == a
                && old(self).items@[i].1 == b) by {
                if old(self).items@[i].0 == a && old(self).items@[i].1 == b {
                    assert(old(self).as_map().dom().contains((a, b)));
                }
            }
            assert forall|k: (usize, usize)|
                self.as_map().dom().contains(k) == old(self).as_map().insert(
                    (a, b),
                    v,
                ).dom().contains(k) by {
                if k.0 == a && k.1 == b {
                    assert(self.items@[self.items@.len() - 1].0 == k.0);
                } else {
                    if self.as_map().dom().contains(k) {
                        let i = choose|i: int|
                            0 <= i < self.items@.len() && (#[trigger] self.items@[i]).0 == k.0
                                && self.items@[i].1 == k.1;
                        assert(old(self).items@[i] == self.items@[i]);
                    }
                    if old(self).as_map().dom().contains(k) {
                        let i = choose|i: int|
                            0 <= i < old(self).items@.len() && (#[trigger] old(self).items@[i]).0
                                == k.0 && old(self).items@[i].1 == k.1;
                        assert(self.items@[i] == old(self).items@[i]);
                    }
                }
            }
            assert forall|k: (usize, usize)|
                self.as_map().dom().contains(k) implies #[trigger] self.as_map()[k] == old(self).as_map().insert((a, b), v)[k] by {
                let i = choose|i: int|
                    0 <= i < self.items@.len() && (#[trigger] self.items@[i]).0 == k.0
                        && self.items@[i].1 == k.1;
                if k.0 == a && k.1 == b {
                    assert(i == self.items@.len() - 1);
                } else {
                    assert(i < self.items@.len() - 1);
                    let j = choose|j: int|
                        0 <= j < old(self).items@.len() && (#[trigger] old(self).items@[j]).0
                            == k.0 && old(self).items@[j].1 == k.1;
                    assert(j == i);
                }
            }
        }
    }
}

} // verus!
