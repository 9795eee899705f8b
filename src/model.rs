use vstd::prelude::*;

verus! {

/// What a container holds, seen as mathematics.
///
/// Each chain is a sequence of slots, head first; chains are numbered in
/// the order in which they were started and keep their number for good,
/// even when every node has been removed from them.
pub struct ContainerView<T> {
    /// The payload of every slot, live or free.
    pub values: Seq<T>,
    /// The chains, each as the sequence of its slots from head to tail.
    pub lists: Seq<Seq<usize>>,
    /// For each live slot, the number of its chain and its position there.
    pub place: Map<usize, (int, int)>,
    /// The reclaimed slots; the last one is handed out first.
    pub free: Seq<usize>,
}

impl<T> ContainerView<T> {
    /// A slot that currently holds a node of some chain.
    pub open spec fn is_live(&self, s: usize) -> bool {
        self.place.dom().contains(s)
    }

    /// `place` gives, for a live slot `s`, a position that holds `s`.
    pub open spec fn placed(&self, s: usize) -> bool {
        let c = self.place[s].0;
        let k = self.place[s].1;
        &&& 0 <= c < self.lists.len()
        &&& 0 <= k < self.lists[c].len()
        &&& self.lists[c][k] == s
        &&& s < self.values.len()
    }

    /// The container's invariant: chains are disjoint paths of live slots,
    /// and every slot is either live or free, never both.
    pub open spec fn wf(&self) -> bool {
        &&& self.values.len() <= usize::MAX
        &&& forall|c: int, k: int|
            #![trigger self.lists[c][k]]
            0 <= c < self.lists.len() && 0 <= k < self.lists[c].len() ==> {
                &&& self.place.dom().contains(self.lists[c][k])
                &&& self.place[self.lists[c][k]] == (c, k)
            }
        &&& forall|s: usize| #[trigger] self.place.dom().contains(s) ==> self.placed(s)
        &&& forall|i: int|
            0 <= i < self.free.len() ==> (#[trigger] self.free[i]) < self.values.len()
                && !self.place.dom().contains(self.free[i])
        &&& self.free.no_duplicates()
        &&& forall|s: usize|
            s < self.values.len() ==> #[trigger] self.place.dom().contains(s)
                || self.free.contains(s)
    }

    /// The slot that follows `s` in its chain.
    pub open spec fn next_of(&self, s: usize) -> Option<usize> {
        if self.is_live(s) && self.place[s].1 + 1 < self.lists[self.place[s].0].len() {
            Some(self.lists[self.place[s].0][self.place[s].1 + 1])
        } else {
            None
        }
    }

    /// The slot that precedes `s` in its chain.
    pub open spec fn prev_of(&self, s: usize) -> Option<usize> {
        if self.is_live(s) && self.place[s].1 > 0 {
            Some(self.lists[self.place[s].0][self.place[s].1 - 1])
        } else {
            None
        }
    }

    /// A new node can be placed: a slot is free, or the arena can grow.
    pub open spec fn can_alloc(&self) -> bool {
        self.free.len() > 0 || self.values.len() < usize::MAX
    }

    /// The slot that the next allocation hands out: the most recently
    /// freed one, else a new slot at the end of the arena.
    pub open spec fn alloc_slot(&self) -> usize {
        if self.free.len() > 0 {
            self.free.last()
        } else {
            self.values.len() as usize
        }
    }

    /// The payloads after `v` is stored by an allocation.
    pub open spec fn values_after_alloc(&self, v: T) -> Seq<T> {
        if self.free.len() > 0 {
            self.values.update(self.alloc_slot() as int, v)
        } else {
            self.values.push(v)
        }
    }

    /// The free list after an allocation.
    pub open spec fn free_after_alloc(&self) -> Seq<usize> {
        if self.free.len() > 0 {
            self.free.drop_last()
        } else {
            self.free
        }
    }

    /// Positions after slot `s` is put at position `k` of chain `c`.
    pub open spec fn place_after_insert(&self, c: int, k: int, s: usize) -> Map<usize, (int, int)> {
        Map::new(
            |h: usize| self.is_live(h) || h == s,
            |h: usize|
                if h == s {
                    (c, k)
                } else if self.place[h].0 == c && self.place[h].1 >= k {
                    (c, self.place[h].1 + 1)
                } else {
                    self.place[h]
                },
        )
    }

    /// The state after a new chain is started with the payload `v`.
    pub open spec fn after_add_list(&self, v: T) -> ContainerView<T> {
        let s = self.alloc_slot();
        ContainerView {
            values: self.values_after_alloc(v),
            lists: self.lists.push(seq![s]),
            place: self.place.insert(s, (self.lists.len() as int, 0)),
            free: self.free_after_alloc(),
        }
    }

    /// The state after a node holding `v` is put at position `k` of the chain
    /// of `at`.
    pub open spec fn after_insert_at(&self, at: usize, k: int, v: T) -> ContainerView<T> {
        let s = self.alloc_slot();
        let c = self.place[at].0;
        ContainerView {
            values: self.values_after_alloc(v),
            lists: self.lists.update(c, self.lists[c].insert(k, s)),
            place: self.place_after_insert(c, k, s),
            free: self.free_after_alloc(),
        }
    }

    /// The state after a node holding `v` is linked right after `at`.
    pub open spec fn after_insert_after(&self, at: usize, v: T) -> ContainerView<T> {
        self.after_insert_at(at, self.place[at].1 + 1, v)
    }

    /// The state after a node holding `v` is linked right before `at`.
    pub open spec fn after_insert_before(&self, at: usize, v: T) -> ContainerView<T> {
        self.after_insert_at(at, self.place[at].1, v)
    }

    /// The state after the node at `at` is taken out of its chain and its
    /// slot put on the free list.
    pub open spec fn after_remove(&self, at: usize) -> ContainerView<T> {
        let c = self.place[at].0;
        let j = self.place[at].1;
        ContainerView {
            values: self.values,
            lists: self.lists.update(c, self.lists[c].remove(j)),
            place: Map::new(
                |h: usize| self.is_live(h) && h != at,
                |h: usize|
                    if self.place[h].0 == c && self.place[h].1 > j {
                        (c, self.place[h].1 - 1)
                    } else {
                        self.place[h]
                    },
            ),
            free: self.free.push(at),
        }
    }

    /// The slots met when following `next` links from `s` until none is left.
    pub open spec fn chain_forward(&self, s: usize) -> Seq<usize> {
        if self.is_live(s) {
            let c = self.place[s].0;
            let j = self.place[s].1;
            self.lists[c].subrange(j, self.lists[c].len() as int)
        } else {
            seq![s]
        }
    }

    /// The slots met when following `prev` links from `s` until none is left.
    pub open spec fn chain_backward(&self, s: usize) -> Seq<usize> {
        if self.is_live(s) {
            let c = self.place[s].0;
            let j = self.place[s].1;
            self.lists[c].subrange(0, j + 1).reverse()
        } else {
            seq![s]
        }
    }

    /// The payloads met by a forward traversal from `s`.
    pub open spec fn forward(&self, s: usize) -> Seq<T> {
        self.chain_forward(s).map_values(|x: usize| self.values[x as int])
    }

    /// The payloads met by a backward traversal from `s`.
    pub open spec fn backward(&self, s: usize) -> Seq<T> {
        self.chain_backward(s).map_values(|x: usize| self.values[x as int])
    }
}

impl<T> ContainerView<T> {
    /// The slot handed out by an allocation is not live, lies inside the
    /// grown arena, and every other free slot stays free.
    pub proof fn lemma_alloc_slot(&self, v: T)
        requires
            self.wf(),
            self.can_alloc(),
        ensures
            !self.is_live(self.alloc_slot()),
            self.alloc_slot() < self.values_after_alloc(v).len() <= usize::MAX,
            self.values_after_alloc(v).len() >= self.values.len(),
            forall|i: int|
                0 <= i < self.values.len() && i != self.alloc_slot() ==> self.values_after_alloc(
                    v,
                )[i] == self.values[i],
            self.values_after_alloc(v)[self.alloc_slot() as int] == v,
            !self.free_after_alloc().contains(self.alloc_slot()),
            self.free_after_alloc().no_duplicates(),
            forall|x: usize|
                #![trigger self.free_after_alloc().contains(x)]
                self.free_after_alloc().contains(x) ==> self.free.contains(x),
            forall|x: usize|
                #![trigger self.free.contains(x)]
                self.free.contains(x) && x != self.alloc_slot() ==> self.free_after_alloc().contains(
                    x,
                ),
    {
        let s = self.alloc_slot();
        if self.free.len() > 0 {
            let n = self.free.len() - 1;
            assert(self.free[n] == s);
            let f = self.free_after_alloc();
            assert forall|x: usize| f.contains(x) implies self.free.contains(x) by {
                let i = choose|i: int| 0 <= i < f.len() && f[i] == x;
                assert(self.free[i] == x);
            }
            assert forall|x: usize| self.free.contains(x) && x != s implies f.contains(x) by {
                let i = choose|i: int| 0 <= i < self.free.len() && self.free[i] == x;
                assert(i != n);
                assert(f[i] == x);
            }
            if f.contains(s) {
                let i = choose|i: int| 0 <= i < f.len() && f[i] == s;
                assert(self.free[i] == self.free[n]);
            }
        } else {
            if self.is_live(s) {
                assert(self.placed(s));
            }
        }
    }

    /// Starting a chain keeps the invariant and changes no link.
    pub proof fn lemma_add_list(&self, v: T)
        requires
            self.wf(),
            self.can_alloc(),
        ensures
            self.after_add_list(v).wf(),
            self.after_add_list(v).is_live(self.alloc_slot()),
            forall|x: usize|
                #![trigger self.after_add_list(v).next_of(x)]
                #![trigger self.after_add_list(v).prev_of(x)]
                self.after_add_list(v).next_of(x) == self.next_of(x) && self.after_add_list(
                    v,
                ).prev_of(x) == self.prev_of(x),
    {
        let s = self.alloc_slot();
        let m = self.after_add_list(v);
        self.lemma_alloc_slot(v);
        assert forall|c: int, k: int|
            #![trigger m.lists[c][k]]
            0 <= c < m.lists.len() && 0 <= k < m.lists[c].len() implies {
            &&& m.place.dom().contains(m.lists[c][k])
            &&& m.place[m.lists[c][k]] == (c, k)
        } by {
            if c < self.lists.len() {
                assert(self.place.dom().contains(self.lists[c][k]));
            }
        }
        assert forall|h: usize| #[trigger] m.place.dom().contains(h) implies m.placed(h) by {
            if h != s {
                assert(self.placed(h));
            }
        }
        assert forall|i: int| 0 <= i < m.free.len() implies (#[trigger] m.free[i]) < m.values.len()
            && !m.place.dom().contains(m.free[i]) by {
            assert(self.free[i] == m.free[i]);
            assert(m.free.contains(m.free[i]));
        }
        assert forall|h: usize| h < m.values.len() implies #[trigger] m.place.dom().contains(h)
            || m.free.contains(h) by {
            if h != s {
                assert(self.place.dom().contains(h) || self.free.contains(h));
            }
        }
        assert forall|x: usize| m.next_of(x) == self.next_of(x) && m.prev_of(x) == self.prev_of(
            x,
        ) by {
            if self.is_live(x) {
                assert(self.placed(x));
            }
        }
    }

    /// The slot at position `k` of chain `c`, if there is one.
    pub open spec fn at_pos(&self, c: int, k: int) -> Option<usize> {
        if 0 <= k < self.lists[c].len() {
            Some(self.lists[c][k])
        } else {
            None
        }
    }

    /// Putting a new node at position `k` of the chain of `at`, next to `at`,
    /// keeps the invariant; the new node sits between the slots that were at
    /// positions `k - 1` and `k`, and no other link changes.
    pub proof fn lemma_insert_at(&self, at: usize, k: int, v: T)
        requires
            self.wf(),
            self.can_alloc(),
            self.is_live(at),
            self.place[at].1 <= k <= self.place[at].1 + 1,
        ensures
            ({
                let m = self.after_insert_at(at, k, v);
                let s = self.alloc_slot();
                let c = self.place[at].0;
                let p = self.at_pos(c, k - 1);
                let q = self.at_pos(c, k);
                &&& m.wf()
                &&& m.is_live(s)
                &&& m.place[s] == (c, k)
                &&& m.prev_of(s) == p
                &&& m.next_of(s) == q
                &&& forall|x: usize|
                    #![trigger m.next_of(x)]
                    x != s ==> m.next_of(x) == if p == Some(x) {
                        Some(s)
                    } else {
                        self.next_of(x)
                    }
                &&& forall|x: usize|
                    #![trigger m.prev_of(x)]
                    x != s ==> m.prev_of(x) == if q == Some(x) {
                        Some(s)
                    } else {
                        self.prev_of(x)
                    }
            }),
    {
        let m = self.after_insert_at(at, k, v);
        let s = self.alloc_slot();
        let c = self.place[at].0;
        let l = self.lists[c];
        assert(self.placed(at));
        self.lemma_alloc_slot(v);
        l.insert_ensures(k, s);
        assert forall|c2: int, k2: int|
            #![trigger m.lists[c2][k2]]
            0 <= c2 < m.lists.len() && 0 <= k2 < m.lists[c2].len() implies {
            &&& m.place.dom().contains(m.lists[c2][k2])
            &&& m.place[m.lists[c2][k2]] == (c2, k2)
        } by {
            if c2 != c {
                assert(self.place.dom().contains(self.lists[c2][k2]));
            } else if k2 < k {
                assert(self.place.dom().contains(l[k2]));
            } else if k2 > k {
                assert(m.lists[c2][k2] == l[k2 - 1]);
                assert(self.place.dom().contains(l[k2 - 1]));
            }
        }
        assert forall|h: usize| #[trigger] m.place.dom().contains(h) implies m.placed(h) by {
            if h != s {
                assert(self.placed(h));
                if self.place[h].0 == c && self.place[h].1 >= k {
                    assert(m.lists[c][self.place[h].1 + 1] == l[self.place[h].1]);
                }
            }
        }
        assert forall|i: int| 0 <= i < m.free.len() implies (#[trigger] m.free[i]) < m.values.len()
            && !m.place.dom().contains(m.free[i]) by {
            assert(self.free[i] == m.free[i]);
            assert(m.free.contains(m.free[i]));
        }
        assert forall|h: usize| h < m.values.len() implies #[trigger] m.place.dom().contains(h)
            || m.free.contains(h) by {
            if h != s {
                assert(self.place.dom().contains(h) || self.free.contains(h));
            }
        }
        assert(m.lists[c][k] == s);
        assert forall|x: usize| x != s implies #[trigger] m.next_of(x) == if self.at_pos(c, k - 1)
            == Some(x) {
            Some(s)
        } else {
            self.next_of(x)
        } by {
            if self.is_live(x) {
                assert(self.placed(x));
                let k2 = self.place[x].1;
                if self.place[x].0 == c {
                    if k2 + 1 < k {
                        assert(m.lists[c][k2 + 1] == l[k2 + 1]);
                    } else if k2 + 1 > k && k2 + 1 < l.len() {
                        assert(m.lists[c][k2 + 2] == l[k2 + 1]);
                    }
                }
            }
        }
        assert forall|x: usize| x != s implies #[trigger] m.prev_of(x) == if self.at_pos(c, k)
            == Some(x) {
            Some(s)
        } else {
            self.prev_of(x)
        } by {
            if self.is_live(x) {
                assert(self.placed(x));
                let k2 = self.place[x].1;
                if self.place[x].0 == c {
                    if k2 < k {
                        if k2 > 0 {
                            assert(m.lists[c][k2 - 1] == l[k2 - 1]);
                        }
                    } else if k2 > k {
                        assert(m.lists[c][k2] == l[k2 - 1]);
                    } else {
                        assert(l[k2] == x);
                    }
                }
            }
        }
        if k > 0 {
            assert(m.lists[c][k - 1] == l[k - 1]);
        }
        if k < l.len() {
            assert(m.lists[c][k + 1] == l[k]);
        }
    }

    /// Taking `at` out keeps the invariant and links its two neighbours to
    /// each other; no other link changes.
    pub proof fn lemma_remove(&self, at: usize)
        requires
            self.wf(),
            self.is_live(at),
        ensures
            ({
                let m = self.after_remove(at);
                let p = self.prev_of(at);
                let q = self.next_of(at);
                &&& m.wf()
                &&& !m.is_live(at)
                &&& m.free.last() == at
                &&& forall|x: usize|
                    #![trigger m.next_of(x)]
                    x != at ==> m.next_of(x) == if p == Some(x) {
                        q
                    } else {
                        self.next_of(x)
                    }
                &&& forall|x: usize|
                    #![trigger m.prev_of(x)]
                    x != at ==> m.prev_of(x) == if q == Some(x) {
                        p
                    } else {
                        self.prev_of(x)
                    }
            }),
    {
        let m = self.after_remove(at);
        let c = self.place[at].0;
        let j = self.place[at].1;
        let l = self.lists[c];
        assert(self.placed(at));
        l.remove_ensures(j);
        assert forall|c2: int, k2: int|
            #![trigger m.lists[c2][k2]]
            0 <= c2 < m.lists.len() && 0 <= k2 < m.lists[c2].len() implies {
            &&& m.place.dom().contains(m.lists[c2][k2])
            &&& m.place[m.lists[c2][k2]] == (c2, k2)
        } by {
            if c2 != c {
                assert(self.place.dom().contains(self.lists[c2][k2]));
                assert(self.lists[c2][k2] != at);
            } else if k2 < j {
                assert(self.place.dom().contains(l[k2]));
            } else {
                assert(m.lists[c2][k2] == l[k2 + 1]);
                assert(self.place.dom().contains(l[k2 + 1]));
            }
        }
        assert forall|h: usize| #[trigger] m.place.dom().contains(h) implies m.placed(h) by {
            assert(self.placed(h));
            if self.place[h].0 == c && self.place[h].1 > j {
                assert(m.lists[c][self.place[h].1 - 1] == l[self.place[h].1]);
            } else if self.place[h].0 == c {
                assert(self.place[h].1 != j);
            }
        }
        assert forall|i: int| 0 <= i < m.free.len() implies (#[trigger] m.free[i]) < m.values.len()
            && !m.place.dom().contains(m.free[i]) by {
            if i < self.free.len() {
                assert(self.free[i] == m.free[i]);
            }
        }
        assert(!self.free.contains(at)) by {
            if self.free.contains(at) {
                let i = choose|i: int| 0 <= i < self.free.len() && self.free[i] == at;
                assert(!self.place.dom().contains(self.free[i]));
            }
        }
        assert(m.free.no_duplicates()) by {
            assert forall|a: int, b: int|
                0 <= a < m.free.len() && 0 <= b < m.free.len() && a != b implies m.free[a]
                != m.free[b] by {
                if a < self.free.len() && b == self.free.len() {
                    assert(self.free.contains(self.free[a]));
                } else if b < self.free.len() && a == self.free.len() {
                    assert(self.free.contains(self.free[b]));
                }
            }
        }
        assert forall|h: usize| h < m.values.len() implies #[trigger] m.place.dom().contains(h)
            || m.free.contains(h) by {
            if h == at {
                assert(m.free[self.free.len() as int] == at);
            } else if !self.place.dom().contains(h) {
                assert(self.free.contains(h));
                let i = choose|i: int| 0 <= i < self.free.len() && self.free[i] == h;
                assert(m.free[i] == h);
            }
        }
        assert forall|x: usize| x != at implies #[trigger] m.next_of(x) == if self.prev_of(at)
            == Some(x) {
            self.next_of(at)
        } else {
            self.next_of(x)
        } by {
            if self.is_live(x) {
                assert(self.placed(x));
                let k2 = self.place[x].1;
                if self.place[x].0 == c {
                    if k2 + 1 < j {
                        assert(m.lists[c][k2 + 1] == l[k2 + 1]);
                    } else if k2 + 1 == j {
                        if j + 1 < l.len() {
                            assert(m.lists[c][k2 + 1] == l[j + 1]);
                        }
                    } else if k2 > j && k2 + 1 < l.len() {
                        assert(m.lists[c][k2] == l[k2 + 1]);
                    }
                }
            }
        }
        assert forall|x: usize| x != at implies #[trigger] m.prev_of(x) == if self.next_of(at)
            == Some(x) {
            self.prev_of(at)
        } else {
            self.prev_of(x)
        } by {
            if self.is_live(x) {
                assert(self.placed(x));
                let k2 = self.place[x].1;
                if self.place[x].0 == c {
                    if k2 < j {
                        if k2 > 0 {
                            assert(m.lists[c][k2 - 1] == l[k2 - 1]);
                        }
                    } else if k2 == j + 1 {
                        if j > 0 {
                            assert(m.lists[c][j - 1] == l[j - 1]);
                        }
                    } else if k2 > j + 1 {
                        assert(m.lists[c][k2 - 2] == l[k2 - 1]);
                    }
                }
            }
        }
    }

    /// Following `next` links from a slot visits exactly `chain_forward`.
    pub proof fn lemma_chain_forward(&self, s: usize)
        requires
            self.wf(),
            s < self.values.len(),
        ensures
            self.chain_forward(s).len() >= 1,
            self.chain_forward(s)[0] == s,
            forall|k: int|
                #![trigger self.chain_forward(s)[k]]
                0 <= k < self.chain_forward(s).len() ==> self.chain_forward(s)[k]
                    < self.values.len() && self.next_of(self.chain_forward(s)[k]) == if k + 1
                    < self.chain_forward(s).len() {
                    Some(self.chain_forward(s)[k + 1])
                } else {
                    None
                },
    {
        let ch = self.chain_forward(s);
        if self.is_live(s) {
            assert(self.placed(s));
            let c = self.place[s].0;
            let j = self.place[s].1;
            assert forall|k: int| 0 <= k < ch.len() implies #[trigger] ch[k] < self.values.len()
                && self.next_of(ch[k]) == if k + 1 < ch.len() {
                Some(ch[k + 1])
            } else {
                None
            } by {
                assert(ch[k] == self.lists[c][j + k]);
                assert(self.placed(ch[k]));
            }
        }
    }

    /// Following `prev` links from a slot visits exactly `chain_backward`.
    pub proof fn lemma_chain_backward(&self, s: usize)
        requires
            self.wf(),
            s < self.values.len(),
        ensures
            self.chain_backward(s).len() >= 1,
            self.chain_backward(s)[0] == s,
            forall|k: int|
                #![trigger self.chain_backward(s)[k]]
                0 <= k < self.chain_backward(s).len() ==> self.chain_backward(s)[k]
                    < self.values.len() && self.prev_of(self.chain_backward(s)[k]) == if k + 1
                    < self.chain_backward(s).len() {
                    Some(self.chain_backward(s)[k + 1])
                } else {
                    None
                },
    {
        let ch = self.chain_backward(s);
        if self.is_live(s) {
            assert(self.placed(s));
            let c = self.place[s].0;
            let j = self.place[s].1;
            assert(ch[0] == self.lists[c][j]);
            assert forall|k: int| 0 <= k < ch.len() implies #[trigger] ch[k] < self.values.len()
                && self.prev_of(ch[k]) == if k + 1 < ch.len() {
                Some(ch[k + 1])
            } else {
                None
            } by {
                assert(ch[k] == self.lists[c][j - k]);
                assert(self.placed(ch[k]));
                if k + 1 < ch.len() {
                    assert(ch[k + 1] == self.lists[c][j - k - 1]);
                }
            }
        }
    }
}

} // verus!
