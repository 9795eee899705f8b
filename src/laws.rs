use vstd::prelude::*;

use crate::model::ContainerView;

verus! {

/// A chain just started from `v` reads `v` alone.
pub proof fn lemma_started_list_reads_value<T>(m: ContainerView<T>, v: T)
    requires
        m.wf(),
        m.can_alloc(),
    ensures
        m.after_add_list(v).forward(m.alloc_slot()) == seq![v],
        m.after_add_list(v).backward(m.alloc_slot()) == seq![v],
{
    let n = m.after_add_list(v);
    let s = m.alloc_slot();
    m.lemma_add_list(v);
    m.lemma_alloc_slot(v);
    assert(n.place[s] == (m.lists.len() as int, 0int));
    assert(n.lists[m.lists.len() as int] == seq![s]);
    assert(n.chain_forward(s) =~= seq![s]);
    assert(n.chain_backward(s) =~= seq![s]);
    assert(n.forward(s) =~= seq![v]);
    assert(n.backward(s) =~= seq![v]);
}

/// Linking `v` after a node `at` puts `v` right after `at`'s payload in a
/// forward traversal from any earlier node `head` of the same chain, and
/// keeps the rest in order; linking after the tail appends `v`. So a chain
/// grown by insertions after its tail reads its values in the order in which
/// they were inserted.
pub proof fn lemma_insert_after_keeps_order<T>(m: ContainerView<T>, head: usize, at: usize, v: T)
    requires
        m.wf(),
        m.can_alloc(),
        m.is_live(head),
        m.is_live(at),
        m.place[head].0 == m.place[at].0,
        m.place[head].1 <= m.place[at].1,
    ensures
        m.after_insert_after(at, v).forward(head) == m.forward(head).insert(
            m.place[at].1 - m.place[head].1 + 1,
            v,
        ),
        m.next_of(at) == None::<usize> ==> m.after_insert_after(at, v).forward(head)
            == m.forward(head).push(v),
{
    let n = m.after_insert_after(at, v);
    let s = m.alloc_slot();
    let c = m.place[at].0;
    let ja = m.place[at].1;
    let jh = m.place[head].1;
    let l = m.lists[c];
    assert(m.placed(at));
    assert(m.placed(head));
    m.lemma_insert_at(at, ja + 1, v);
    m.lemma_alloc_slot(v);
    l.insert_ensures(ja + 1, s);
    assert(n.place[head] == (c, jh));
    let old_fw = m.forward(head);
    let new_fw = n.forward(head);
    let d = ja - jh + 1;
    assert(old_fw.len() == l.len() - jh);
    assert(new_fw.len() == l.len() + 1 - jh);
    assert forall|i: int| 0 <= i < new_fw.len() implies new_fw[i] == old_fw.insert(d, v)[i] by {
        if i < d {
            assert(n.lists[c][jh + i] == l[jh + i]);
            assert(m.placed(l[jh + i]));
        } else if i > d {
            assert(n.lists[c][jh + i] == l[jh + i - 1]);
            assert(m.placed(l[jh + i - 1]));
        }
    }
    assert(new_fw =~= old_fw.insert(d, v));
    if m.next_of(at) == None::<usize> {
        assert(old_fw.insert(d, v) =~= old_fw.push(v));
    }
}

/// Links are symmetric: `b` follows `a` exactly when `a` precedes `b`.
pub proof fn lemma_links_symmetric<T>(m: ContainerView<T>, a: usize, b: usize)
    requires
        m.wf(),
    ensures
        m.next_of(a) == Some(b) <==> m.prev_of(b) == Some(a),
{
    if m.next_of(a) == Some(b) {
        assert(m.placed(a));
        let c = m.place[a].0;
        let j = m.place[a].1;
        assert(m.place[m.lists[c][j + 1]] == (c, j + 1));
    }
    if m.prev_of(b) == Some(a) {
        assert(m.placed(b));
        let c = m.place[b].0;
        let j = m.place[b].1;
        assert(m.place[m.lists[c][j - 1]] == (c, j - 1));
    }
}

/// The slot freed last is the next one handed out, and handing it out does
/// not grow the arena.
pub proof fn lemma_freed_slot_reused_first<T>(m: ContainerView<T>, at: usize, v: T)
    requires
        m.wf(),
        m.is_live(at),
    ensures
        m.after_remove(at).can_alloc(),
        m.after_remove(at).alloc_slot() == at,
        m.after_remove(at).after_add_list(v).values.len() == m.values.len(),
        m.after_remove(at).after_add_list(v).free == m.free,
{
    let r = m.after_remove(at);
    assert(r.free.drop_last() =~= m.free);
}

/// Operations on the nodes of one chain, and starting a new chain, change
/// no traversal of another chain.
pub proof fn lemma_other_lists_untouched<T>(m: ContainerView<T>, at: usize, h: usize, v: T)
    requires
        m.wf(),
        m.is_live(at),
        m.is_live(h),
        m.place[h].0 != m.place[at].0,
    ensures
        m.can_alloc() ==> m.after_insert_after(at, v).forward(h) == m.forward(h)
            && m.after_insert_after(at, v).backward(h) == m.backward(h),
        m.can_alloc() ==> m.after_insert_before(at, v).forward(h) == m.forward(h)
            && m.after_insert_before(at, v).backward(h) == m.backward(h),
        m.after_remove(at).forward(h) == m.forward(h),
        m.after_remove(at).backward(h) == m.backward(h),
        m.can_alloc() ==> m.after_add_list(v).forward(h) == m.forward(h)
            && m.after_add_list(v).backward(h) == m.backward(h),
{
    assert(m.placed(h));
    assert(m.placed(at));
    let c = m.place[h].0;
    let l = m.lists[c];
    // Every slot of `h`'s chain is live, so no allocation hands it out.
    assert forall|i: int| 0 <= i < l.len() implies #[trigger] m.is_live(l[i]) && m.place[l[i]]
        == (c, i) && l[i] != at by {}
    if m.can_alloc() {
        m.lemma_alloc_slot(v);
        let s = m.alloc_slot();
        let a = m.after_insert_after(at, v);
        let b = m.after_insert_before(at, v);
        let n = m.after_add_list(v);
        assert(a.forward(h) =~= m.forward(h));
        assert(a.backward(h) =~= m.backward(h));
        assert(b.forward(h) =~= m.forward(h));
        assert(b.backward(h) =~= m.backward(h));
        assert(n.forward(h) =~= m.forward(h));
        assert(n.backward(h) =~= m.backward(h));
    }
    let r = m.after_remove(at);
    assert(r.forward(h) =~= m.forward(h));
    assert(r.backward(h) =~= m.backward(h));
}

/// Removing a node links its former neighbours directly to each other and
/// changes no other link; the rest of the chain on either side reads as
/// before, so removing an end leaves the far end as it was.
pub proof fn lemma_remove_relinks<T>(m: ContainerView<T>, at: usize)
    requires
        m.wf(),
        m.is_live(at),
    ensures
        ({
            let r = m.after_remove(at);
            let p = m.prev_of(at);
            let q = m.next_of(at);
            &&& r.wf()
            &&& p matches Some(ps) ==> r.next_of(ps) == q
            &&& q matches Some(qs) ==> r.prev_of(qs) == p
            &&& forall|x: usize|
                x != at && p != Some(x) ==> #[trigger] r.next_of(x) == m.next_of(x)
            &&& forall|x: usize|
                x != at && q != Some(x) ==> #[trigger] r.prev_of(x) == m.prev_of(x)
            &&& q matches Some(qs) ==> r.forward(qs) == m.forward(qs)
            &&& p matches Some(ps) ==> r.backward(ps) == m.backward(ps)
        }),
{
    let r = m.after_remove(at);
    let c = m.place[at].0;
    let j = m.place[at].1;
    let l = m.lists[c];
    m.lemma_remove(at);
    assert(m.placed(at));
    l.remove_ensures(j);
    if let Some(qs) = m.next_of(at) {
        assert(m.place[l[j + 1]] == (c, j + 1));
        assert(r.place[qs] == (c, j));
        let a = r.forward(qs);
        let b = m.forward(qs);
        assert forall|i: int| 0 <= i < a.len() implies a[i] == b[i] by {
            assert(r.lists[c][j + i] == l[j + 1 + i]);
        }
        assert(a =~= b);
    }
    if let Some(ps) = m.prev_of(at) {
        assert(m.place[l[j - 1]] == (c, j - 1));
        assert(r.place[ps] == (c, j - 1));
        let a = r.backward(ps);
        let b = m.backward(ps);
        assert forall|i: int| 0 <= i < a.len() implies a[i] == b[i] by {
            assert(r.lists[c][j - 1 - i] == l[j - 1 - i]);
        }
        assert(a =~= b);
    }
}

} // verus!
