use vstd::prelude::*;

use crate::index::{slot_of, Index, NO_LINK};
use crate::model::ContainerView;

verus! {

/// The stored form of a link: the slot it points to, or `NO_LINK`.
pub open spec fn encode(link: Option<usize>) -> usize {
    match link {
        Some(s) => s,
        None => NO_LINK,
    }
}

/// The links of one slot.
#[derive(Clone, Copy, Debug)]
struct Cursor {
    prev: Index,
    next: Index,
}

spec fn with_next(cs: Seq<Cursor>, at: usize, v: Index) -> Seq<Cursor> {
    cs.update(at as int, Cursor { prev: cs[at as int].prev, next: v })
}

spec fn with_prev(cs: Seq<Cursor>, at: usize, v: Index) -> Seq<Cursor> {
    cs.update(at as int, Cursor { prev: v, next: cs[at as int].next })
}

/// Any number of doubly-linked lists over one arena of slots.
pub struct ListContainer<T> {
    cursor: Vec<Cursor>,
    data: Vec<T>,
    free_list: Vec<usize>,
    lists: Ghost<Seq<Seq<usize>>>,
    place: Ghost<Map<usize, (int, int)>>,
}

impl<T> View for ListContainer<T> {
    type V = ContainerView<T>;

    closed spec fn view(&self) -> ContainerView<T> {
        ContainerView {
            values: self.data@,
            lists: self.lists@,
            place: self.place@,
            free: self.free_list@,
        }
    }
}

impl<T> ListContainer<T> {
    /// Link storage and payload storage have one entry per slot.
    pub closed spec fn slots_aligned(&self) -> bool {
        self.cursor.len() == self.data.len()
    }

    /// The stored `next` link of slot `s`.
    pub closed spec fn stored_next(&self, s: usize) -> usize {
        self.cursor@[s as int].next@
    }

    /// The stored `prev` link of slot `s`.
    pub closed spec fn stored_prev(&self, s: usize) -> usize {
        self.cursor@[s as int].prev@
    }

    /// The container's invariant: the view is well formed and the stored
    /// links are exactly the links of its chains (none for a free slot).
    pub open spec fn wf(&self) -> bool {
        &&& self@.wf()
        &&& self.slots_aligned()
        &&& forall|s: usize|
            #![trigger self.stored_next(s)]
            #![trigger self.stored_prev(s)]
            s < self@.values.len() ==> self.stored_next(s) == encode(self@.next_of(s))
                && self.stored_prev(s) == encode(self@.prev_of(s))
    }

    /// An empty container.
    pub open spec fn is_empty_container(&self) -> bool {
        &&& self.wf()
        &&& self@.values.len() == 0
        &&& self@.lists.len() == 0
        &&& self@.free.len() == 0
    }

    /// An empty container with room for `capacity` slots reserved; the
    /// reservation changes nothing that can be observed.
    pub fn with_capacity(capacity: usize) -> (r: Self)
        ensures
            r.is_empty_container(),
    {
        ListContainer {
            cursor: Vec::with_capacity(capacity),
            data: Vec::with_capacity(capacity),
            free_list: Vec::new(),
            lists: Ghost(Seq::empty()),
            place: Ghost(Map::empty()),
        }
    }

    /// Stores `datum` in the slot named by `alloc_slot`, with no links, and
    /// leaves the chains as they are.
    fn allocate(&mut self, datum: T) -> (r: Index)
        requires
            old(self).wf(),
            old(self)@.can_alloc(),
        ensures
            r@ == old(self)@.alloc_slot(),
            final(self).data@ == old(self)@.values_after_alloc(datum),
            final(self).free_list@ == old(self)@.free_after_alloc(),
            final(self).lists == old(self).lists,
            final(self).place == old(self).place,
            final(self).cursor.len() == final(self).data.len(),
            forall|s: int|
                0 <= s < old(self).cursor.len() && s != r@ ==> final(self).cursor@[s] == old(
                    self,
                ).cursor@[s],
            final(self).cursor@[r@ as int].next@ == NO_LINK,
            final(self).cursor@[r@ as int].prev@ == NO_LINK,
    {
        proof {
            self@.lemma_alloc_slot(datum);
        }
        if let Some(index) = self.free_list.pop() {
            assert(old(self)@.free[old(self)@.free.len() - 1] == index);
            assert(old(self).stored_next(index) == encode(old(self)@.next_of(index)));
            self.data.set(index, datum);
            Index::new(index)
        } else {
            self.data.push(datum);
            let cursor = Cursor { prev: Index::sentinel(), next: Index::sentinel() };
            self.cursor.push(cursor);
            Index::new(self.data.len() - 1)
        }
    }

    /// Starts a new chain whose only node holds `datum`, and returns its
    /// handle: the most recently freed slot if there is one, else a new slot.
    pub fn new_index(&mut self, datum: T) -> (r: Index)
        requires
            old(self).wf(),
            old(self)@.can_alloc(),
        ensures
            final(self).wf(),
            r@ == old(self)@.alloc_slot(),
            final(self)@ == old(self)@.after_add_list(datum),
    {
        let ghost target = old(self)@.after_add_list(datum);
        proof {
            old(self)@.lemma_add_list(datum);
            old(self)@.lemma_alloc_slot(datum);
        }
        let r = self.allocate(datum);
        self.lists = Ghost(target.lists);
        self.place = Ghost(target.place);
        assert(self@ == target);
        assert forall|s: usize| s < self@.values.len() implies #[trigger] self.stored_next(s)
            == encode(self@.next_of(s)) && self.stored_prev(s) == encode(self@.prev_of(s)) by {
            if s != r@ {
                assert(old(self).stored_next(s) == encode(old(self)@.next_of(s)));
            }
        }
        r
    }

    /// Starts a new chain whose only node holds `datum`; the same as
    /// `new_index`.
    pub fn add_list(&mut self, datum: T) -> (r: Index)
        requires
            old(self).wf(),
            old(self)@.can_alloc(),
        ensures
            final(self).wf(),
            r@ == old(self)@.alloc_slot(),
            final(self)@ == old(self)@.after_add_list(datum),
    {
        self.new_index(datum)
    }

    fn setup_insertion(&mut self, at: Index, datum: T) -> (r: (Index, Index))
        requires
            old(self).wf(),
            old(self)@.can_alloc(),
        ensures
            r.0@ == old(self)@.alloc_slot(),
            r.1 == at,
            final(self).data@ == old(self)@.values_after_alloc(datum),
            final(self).free_list@ == old(self)@.free_after_alloc(),
            final(self).lists == old(self).lists,
            final(self).place == old(self).place,
            final(self).cursor.len() == final(self).data.len(),
            forall|s: int|
                0 <= s < old(self).cursor.len() && s != r.0@ ==> final(self).cursor@[s] == old(
                    self,
                ).cursor@[s],
            final(self).cursor@[r.0@ as int].next@ == NO_LINK,
            final(self).cursor@[r.0@ as int].prev@ == NO_LINK,
    {
        let new_index = self.allocate(datum);
        (new_index, at)
    }

    fn finalize_insertion(&mut self, next: Index, next_value: Index, prev: Index, prev_value: Index)
        requires
            next@ < old(self).cursor.len(),
            prev@ < old(self).cursor.len(),
        ensures
            final(self).cursor@ == with_prev(
                with_next(old(self).cursor@, next@, next_value),
                prev@,
                prev_value,
            ),
            final(self).data == old(self).data,
            final(self).free_list == old(self).free_list,
            final(self).lists == old(self).lists,
            final(self).place == old(self).place,
    {
        self.set_next(next, next_value);
        self.set_prev(prev, prev_value);
    }

    fn set_next(&mut self, at: Index, value: Index)
        requires
            at@ < old(self).cursor.len(),
        ensures
            final(self).cursor@ == with_next(old(self).cursor@, at@, value),
            final(self).data == old(self).data,
            final(self).free_list == old(self).free_list,
            final(self).lists == old(self).lists,
            final(self).place == old(self).place,
    {
        let mut c = self.cursor[at.slot()];
        c.next = value;
        self.cursor.set(at.slot(), c);
    }

    fn set_prev(&mut self, at: Index, value: Index)
        requires
            at@ < old(self).cursor.len(),
        ensures
            final(self).cursor@ == with_prev(old(self).cursor@, at@, value),
            final(self).data == old(self).data,
            final(self).free_list == old(self).free_list,
            final(self).lists == old(self).lists,
            final(self).place == old(self).place,
    {
        let mut c = self.cursor[at.slot()];
        c.prev = value;
        self.cursor.set(at.slot(), c);
    }

    /// The node after `at` in its chain; `None` at the tail, and for a free
    /// slot.
    pub fn next(&self, at: Index) -> (r: Option<Index>)
        requires
            self.wf(),
            at@ < self@.values.len(),
        ensures
            slot_of(r) == self@.next_of(at@),
    {
        self.next_raw(at).into_option()
    }

    /// The stored `next` link of `at`, `NO_LINK` for none.
    fn next_raw(&self, at: Index) -> (r: Index)
        requires
            self.slots_aligned(),
            at@ < self@.values.len(),
        ensures
            r@ == self.stored_next(at@),
    {
        self.cursor[at.slot()].next
    }

    /// The node before `at` in its chain; `None` at the head, and for a free
    /// slot.
    pub fn prev(&self, at: Index) -> (r: Option<Index>)
        requires
            self.wf(),
            at@ < self@.values.len(),
        ensures
            slot_of(r) == self@.prev_of(at@),
    {
        self.prev_raw(at).into_option()
    }

    /// The stored `prev` link of `at`, `NO_LINK` for none.
    pub fn prev_raw(&self, at: Index) -> (r: Index)
        requires
            self.slots_aligned(),
            at@ < self@.values.len(),
        ensures
            r@ == self.stored_prev(at@),
    {
        self.cursor[at.slot()].prev
    }

    /// Links a new node holding `datum` right after `at`, between `at` and
    /// its former successor, and returns the new node's handle.
    pub fn insert_after(&mut self, at: Index, datum: T) -> (r: Index)
        requires
            old(self).wf(),
            old(self)@.is_live(at@),
            old(self)@.can_alloc(),
        ensures
            final(self).wf(),
            r@ == old(self)@.alloc_slot(),
            final(self)@ == old(self)@.after_insert_after(at@, datum),
            final(self)@.next_of(at@) == Some(r@),
            final(self)@.prev_of(r@) == Some(at@),
            final(self)@.next_of(r@) == old(self)@.next_of(at@),
            old(self)@.next_of(at@) matches Some(n) ==> final(self)@.prev_of(n) == Some(r@),
    {
        let ghost old_view = old(self)@;
        let ghost target = old(self)@.after_insert_after(at@, datum);
        let ghost c = old_view.place[at@].0;
        let ghost j = old_view.place[at@].1;
        proof {
            old_view.lemma_insert_at(at@, j + 1, datum);
            old_view.lemma_alloc_slot(datum);
            assert(old_view.placed(at@));
            assert(old(self).stored_next(at@) == encode(old_view.next_of(at@)));
            if j + 1 < old_view.lists[c].len() {
                assert(old_view.place[old_view.lists[c][j + 1]] == (c, j + 1));
            }
        }
        let (new_index, index_at) = self.setup_insertion(at, datum);
        if let Some(next) = self.next_raw(at).into_option() {
            self.set_next(new_index, next);
            self.set_prev(next, new_index);
        }
        self.finalize_insertion(index_at, new_index, new_index, index_at);
        self.lists = Ghost(target.lists);
        self.place = Ghost(target.place);
        assert(self@ == target);
        assert forall|s: usize| s < self@.values.len() implies self.stored_next(s) == encode(
            self@.next_of(s),
        ) && self.stored_prev(s) == encode(self@.prev_of(s)) by {
            if s != new_index@ {
                assert(old(self).stored_next(s) == encode(old_view.next_of(s)));
                assert(old(self).stored_prev(s) == encode(old_view.prev_of(s)));
            }
        }
        new_index
    }

    /// Links a new node holding `datum` right before `at`, between `at` and
    /// its former predecessor, and returns the new node's handle.
    pub fn insert_before(&mut self, at: Index, datum: T) -> (r: Index)
        requires
            old(self).wf(),
            old(self)@.is_live(at@),
            old(self)@.can_alloc(),
        ensures
            final(self).wf(),
            r@ == old(self)@.alloc_slot(),
            final(self)@ == old(self)@.after_insert_before(at@, datum),
            final(self)@.prev_of(at@) == Some(r@),
            final(self)@.next_of(r@) == Some(at@),
            final(self)@.prev_of(r@) == old(self)@.prev_of(at@),
            old(self)@.prev_of(at@) matches Some(p) ==> final(self)@.next_of(p) == Some(r@),
    {
        let ghost old_view = old(self)@;
        let ghost target = old(self)@.after_insert_before(at@, datum);
        let ghost c = old_view.place[at@].0;
        let ghost j = old_view.place[at@].1;
        proof {
            old_view.lemma_insert_at(at@, j, datum);
            old_view.lemma_alloc_slot(datum);
            assert(old_view.placed(at@));
            assert(old(self).stored_prev(at@) == encode(old_view.prev_of(at@)));
            if j > 0 {
                assert(old_view.place[old_view.lists[c][j - 1]] == (c, j - 1));
            }
        }
        let (new_index, index_at) = self.setup_insertion(at, datum);
        if let Some(prev) = self.prev_raw(at).into_option() {
            self.set_prev(new_index, prev);
            self.set_next(prev, new_index);
        }
        self.finalize_insertion(new_index, index_at, index_at, new_index);
        self.lists = Ghost(target.lists);
        self.place = Ghost(target.place);
        assert(self@ == target);
        assert forall|s: usize| s < self@.values.len() implies self.stored_next(s) == encode(
            self@.next_of(s),
        ) && self.stored_prev(s) == encode(self@.prev_of(s)) by {
            if s != new_index@ {
                assert(old(self).stored_next(s) == encode(old_view.next_of(s)));
                assert(old(self).stored_prev(s) == encode(old_view.prev_of(s)));
            }
        }
        new_index
    }

    /// Takes `at` out of its chain, links its two neighbours to each other,
    /// clears its links and puts its slot on the free list; the handle must
    /// not be used again until the slot is handed out anew.
    pub fn remove(&mut self, at: Index)
        requires
            old(self).wf(),
            old(self)@.is_live(at@),
        ensures
            final(self).wf(),
            final(self)@ == old(self)@.after_remove(at@),
            final(self)@.next_of(at@) == None::<usize>,
            final(self)@.prev_of(at@) == None::<usize>,
            old(self)@.prev_of(at@) matches Some(p) ==> final(self)@.next_of(p) == old(
                self,
            )@.next_of(at@),
            old(self)@.next_of(at@) matches Some(n) ==> final(self)@.prev_of(n) == old(
                self,
            )@.prev_of(at@),
    {
        let ghost old_view = old(self)@;
        let ghost target = old(self)@.after_remove(at@);
        let ghost c = old_view.place[at@].0;
        let ghost j = old_view.place[at@].1;
        proof {
            old_view.lemma_remove(at@);
            assert(old_view.placed(at@));
            assert(old(self).stored_next(at@) == encode(old_view.next_of(at@)));
            assert(old(self).stored_prev(at@) == encode(old_view.prev_of(at@)));
            if j > 0 {
                assert(old_view.place[old_view.lists[c][j - 1]] == (c, j - 1));
                assert(old_view.placed(old_view.lists[c][j - 1]));
            }
            if j + 1 < old_view.lists[c].len() {
                assert(old_view.place[old_view.lists[c][j + 1]] == (c, j + 1));
                assert(old_view.placed(old_view.lists[c][j + 1]));
            }
        }
        let prev = self.prev_raw(at);
        let next = self.next_raw(at);

        if !prev.is_sentinel() {
            self.set_next(prev, next);
        }
        if !next.is_sentinel() {
            self.set_prev(next, prev);
        }
        self.set_prev(at, Index::sentinel());
        self.set_next(at, Index::sentinel());
        self.free_list.push(at.slot());
        self.lists = Ghost(target.lists);
        self.place = Ghost(target.place);
        assert(self@ == target);
        assert forall|s: usize| s < self@.values.len() implies self.stored_next(s) == encode(
            self@.next_of(s),
        ) && self.stored_prev(s) == encode(self@.prev_of(s)) by {
            if s != at@ {
                assert(old(self).stored_next(s) == encode(old_view.next_of(s)));
                assert(old(self).stored_prev(s) == encode(old_view.prev_of(s)));
            }
        }
    }

    /// The payloads from `from` to the tail of its chain, following `next`
    /// links; for a free slot, its payload alone.
    pub fn iterate_forward(&self, from: Index) -> (r: Vec<&T>)
        requires
            self.wf(),
            from@ < self@.values.len(),
        ensures
            r@.map_values(|x: &T| *x) == self@.forward(from@),
    {
        let ghost ch = self@.chain_forward(from@);
        proof {
            self@.lemma_chain_forward(from@);
        }
        let mut out: Vec<&T> = Vec::new();
        let mut cur: Option<Index> = Some(from);
        let ghost mut k: int = 0;
        while cur.is_some()
            invariant
                self.wf(),
                from@ < self@.values.len(),
                ch == self@.chain_forward(from@),
                0 <= k <= ch.len(),
                cur.is_some() <==> k < ch.len(),
                k < ch.len() ==> cur.unwrap()@ == ch[k],
                out@.len() == k,
                forall|i: int| 0 <= i < k ==> *out@[i] == self@.values[ch[i] as int],
            decreases ch.len() - k,
        {
            let index = cur.unwrap();
            proof {
                self@.lemma_chain_forward(from@);
            }
            assert(ch[k] < self@.values.len());
            out.push(&self.data[index.slot()]);
            cur = self.next(index);
            proof {
                k = k + 1;
            }
        }
        assert(out@.map_values(|x: &T| *x) =~= self@.forward(from@));
        out
    }

    /// The payloads from `from` back to the head of its chain, following
    /// `prev` links; for a free slot, its payload alone.
    pub fn iterate_backward(&self, from: Index) -> (r: Vec<&T>)
        requires
            self.wf(),
            from@ < self@.values.len(),
        ensures
            r@.map_values(|x: &T| *x) == self@.backward(from@),
    {
        let ghost ch = self@.chain_backward(from@);
        proof {
            self@.lemma_chain_backward(from@);
        }
        let mut out: Vec<&T> = Vec::new();
        let mut cur: Option<Index> = Some(from);
        let ghost mut k: int = 0;
        while cur.is_some()
            invariant
                self.wf(),
                from@ < self@.values.len(),
                ch == self@.chain_backward(from@),
                0 <= k <= ch.len(),
                cur.is_some() <==> k < ch.len(),
                k < ch.len() ==> cur.unwrap()@ == ch[k],
                out@.len() == k,
                forall|i: int| 0 <= i < k ==> *out@[i] == self@.values[ch[i] as int],
            decreases ch.len() - k,
        {
            let index = cur.unwrap();
            proof {
                self@.lemma_chain_backward(from@);
            }
            assert(ch[k] < self@.values.len());
            out.push(&self.data[index.slot()]);
            cur = self.prev(index);
            proof {
                k = k + 1;
            }
        }
        assert(out@.map_values(|x: &T| *x) =~= self@.backward(from@));
        out
    }

    /// The payload stored in the slot of `at`.
    pub fn get(&self, at: Index) -> (r: &T)
        requires
            self.wf(),
            at@ < self@.values.len(),
        ensures
            *r == self@.values[at@ as int],
    {
        &self.data[at.slot()]
    }
}

impl<T> Default for ListContainer<T> {
    /// An empty container.
    fn default() -> (r: Self)
        ensures
            r.is_empty_container(),
    {
        ListContainer {
            cursor: Vec::new(),
            data: Vec::new(),
            free_list: Vec::new(),
            lists: Ghost(Seq::empty()),
            place: Ghost(Map::empty()),
        }
    }
}

} // verus!
