use vstd::prelude::*;
use crate::constants::{BUF_PAGE_CAPACITY, PAGE_SIZE};
use crate::list::{MultiList, erase_view, in_lists, lemma_erase_view_at, valid_pos};
use crate::bimap_spec::{
    PagePos, bimap_insert, lemma_one_to_one_insert, lemma_one_to_one_remove, one_to_one, slot_map_get_by_left,
    slot_map_get_by_right, slot_map_insert, slot_map_new, slot_map_remove_by_left, slot_pairs,
};
use crate::fm::FileManager;
use bimap::BiHashMap;
use std::collections::HashMap;

verus! {

// ---------------------------------------------------------------------------
// Replacement order of the buffer slots.
// ---------------------------------------------------------------------------

/// `s` holds every buffer slot `0..BUF_PAGE_CAPACITY` exactly once.
pub open spec fn is_slot_order(s: Seq<usize>) -> bool {
    &&& s.len() == BUF_PAGE_CAPACITY
    &&& s.no_duplicates()
    &&& forall|i: int| 0 <= i < s.len() ==> #[trigger] s[i] < BUF_PAGE_CAPACITY
    &&& forall|x: usize| x < BUF_PAGE_CAPACITY ==> #[trigger] s.contains(x)
}

/// `e` moved to the back of `s`.
pub open spec fn move_to_back(s: Seq<usize>, e: usize) -> Seq<usize> {
    s.remove(s.index_of(e)).push(e)
}

/// `e` moved to the front of `s`.
pub open spec fn move_to_front(s: Seq<usize>, e: usize) -> Seq<usize> {
    seq![e] + s.remove(s.index_of(e))
}

/// `s` after each of `es`, in turn, has been moved to the front.
pub open spec fn fronts(s: Seq<usize>, es: Seq<usize>) -> Seq<usize>
    decreases es.len(),
{
    if es.len() == 0 {
        s
    } else {
        move_to_front(fronts(s, es.drop_last()), es.last())
    }
}

proof fn lemma_index_of_distinct(s: Seq<usize>, k: int)
    requires
        s.no_duplicates(),
        0 <= k < s.len(),
    ensures
        s.contains(s[k]),
        s.index_of(s[k]) == k,
{
    assert(s[k] == s[k]);
    let j = s.index_of(s[k]);
    assert(0 <= j < s.len() && s[j] == s[k]);
}

proof fn lemma_move_keeps_order(s: Seq<usize>, e: usize)
    requires
        is_slot_order(s),
        e < BUF_PAGE_CAPACITY,
    ensures
        is_slot_order(move_to_back(s, e)),
        is_slot_order(move_to_front(s, e)),
{
    assert(s.contains(e));
    let k = s.index_of(e);
    let r = s.remove(k);
    let b = r.push(e);
    let f = seq![e] + r;
    assert forall|x: usize| x < BUF_PAGE_CAPACITY implies b.contains(x) && f.contains(x) by {
        if x == e {
            assert(b[b.len() - 1] == x);
            assert(f[0] == x);
        } else {
            assert(s.contains(x));
            let j = s.index_of(x);
            if j < k {
                assert(r[j] == x);
                assert(b[j] == x);
                assert(f[j + 1] == x);
            } else {
                assert(r[j - 1] == x);
                assert(b[j - 1] == x);
                assert(f[j] == x);
            }
        }
    }
    assert forall|i: int, j: int| 0 <= i < j < r.len() implies r[i] != r[j] by {
        let i2 = if i < k { i } else { i + 1 };
        let j2 = if j < k { j } else { j + 1 };
        assert(r[i] == s[i2] && r[j] == s[j2]);
    }
    assert forall|i: int| 0 <= i < r.len() implies r[i] != e by {
        let i2 = if i < k { i } else { i + 1 };
        assert(r[i] == s[i2]);
    }
    assert(b.no_duplicates()) by {
        assert forall|i: int, j: int| 0 <= i < b.len() && 0 <= j < b.len() && i != j implies b[i]
            != b[j] by {
            if i < r.len() && j < r.len() {
                assert(b[i] == r[i] && b[j] == r[j]);
            }
        }
    }
    assert(f.no_duplicates()) by {
        assert forall|i: int, j: int| 0 <= i < f.len() && 0 <= j < f.len() && i != j implies f[i]
            != f[j] by {
            if i > 0 && j > 0 {
                assert(f[i] == r[i - 1] && f[j] == r[j - 1]);
            }
        }
    }
    assert forall|i: int| 0 <= i < b.len() implies #[trigger] b[i] < BUF_PAGE_CAPACITY by {
        if i < r.len() {
            let i2 = if i < k { i } else { i + 1 };
            assert(b[i] == s[i2]);
        }
    }
    assert forall|i: int| 0 <= i < f.len() implies #[trigger] f[i] < BUF_PAGE_CAPACITY by {
        if i > 0 {
            let i2 = if i - 1 < k { i - 1 } else { i };
            assert(f[i] == s[i2]);
        }
    }
}

/// Moving the last element of a sequence without duplicates to the back leaves it as it is.
proof fn lemma_move_last_to_back(s: Seq<usize>)
    requires
        s.len() > 0,
        s.no_duplicates(),
    ensures
        move_to_back(s, s.last()) == s,
{
    lemma_index_of_distinct(s, s.len() - 1);
    assert(s.remove(s.len() - 1).push(s.last()) =~= s);
}

/// Moving an element other than the last to the front keeps the last element.
proof fn lemma_move_to_front_keeps_last(s: Seq<usize>, e: usize)
    requires
        s.contains(e),
        s.last() != e,
    ensures
        move_to_front(s, e).last() == s.last(),
{
    let k = s.index_of(e);
    assert(k != s.len() - 1);
    assert(s.remove(k).last() == s.last());
}

/// The test "is not `e`".
pub open spec fn other_than(e: usize) -> spec_fn(usize) -> bool {
    |x: usize| x != e
}

proof fn lemma_filter_keeps_all(s: Seq<usize>, e: usize)
    requires
        !s.contains(e),
    ensures
        s.filter(other_than(e)) == s,
    decreases s.len(),
{
    reveal(Seq::filter);
    if s.len() > 0 {
        let t = s.drop_last();
        assert(!t.contains(e)) by {
            if t.contains(e) {
                let j = t.index_of(e);
                assert(s[j] == e);
            }
        }
        lemma_filter_keeps_all(t, e);
        assert(s[s.len() - 1] != e);
        assert(t.push(s.last()) =~= s);
    }
}

proof fn lemma_remove_is_filter(s: Seq<usize>, e: usize)
    requires
        s.no_duplicates(),
        s.contains(e),
    ensures
        s.remove(s.index_of(e)) == s.filter(other_than(e)),
    decreases s.len(),
{
    reveal(Seq::filter);
    let k = s.index_of(e);
    let t = s.drop_last();
    if s.last() == e {
        lemma_index_of_distinct(s, s.len() - 1);
        assert(!t.contains(e)) by {
            if t.contains(e) {
                let j = t.index_of(e);
                assert(s[j] == s[s.len() - 1]);
            }
        }
        lemma_filter_keeps_all(t, e);
        assert(s.remove(k) =~= t);
    } else {
        assert(k != s.len() - 1);
        assert(t[k] == e);
        assert(t.no_duplicates());
        lemma_index_of_distinct(t, k);
        lemma_remove_is_filter(t, e);
        assert(s.remove(k) =~= t.remove(k).push(s.last()));
    }
}

/// Among distinct slots, moving one to the back or to the front keeps the others
/// in their order: `move_to_back(s, e)` is `s` without `e`, then `e`, and
/// `move_to_front(s, e)` is `e`, then `s` without `e`.
pub proof fn lemma_move_keeps_others(s: Seq<usize>, e: usize)
    requires
        s.no_duplicates(),
        s.contains(e),
    ensures
        move_to_back(s, e) == s.filter(other_than(e)).push(e),
        move_to_front(s, e) == seq![e] + s.filter(other_than(e)),
{
    lemma_remove_is_filter(s, e);
}

/// The slots `n-1, ..., 1, 0`.
pub open spec fn slots_down(n: nat) -> Seq<usize> {
    Seq::new(n, |j: int| (n - 1 - j) as usize)
}

proof fn lemma_front_extends_down(s: Seq<usize>, i: usize)
    requires
        is_slot_order(s),
        i < BUF_PAGE_CAPACITY,
        s.subrange(0, i as int) == slots_down(i as nat),
    ensures
        is_slot_order(move_to_front(s, i)),
        move_to_front(s, i).subrange(0, i + 1) == slots_down((i + 1) as nat),
{
    lemma_move_keeps_order(s, i);
    assert(s.contains(i));
    let k = s.index_of(i);
    assert(k >= i) by {
        if k < i {
            assert(s.subrange(0, i as int)[k] == s[k]);
        }
    }
    let f = move_to_front(s, i);
    assert forall|j: int| 0 <= j < i + 1 implies #[trigger] f.subrange(0, i + 1)[j] == slots_down(
        (i + 1) as nat,
    )[j] by {
        if j > 0 {
            assert(f[j] == s.remove(k)[j - 1]);
            assert(s.remove(k)[j - 1] == s[j - 1]);
            assert(s.subrange(0, i as int)[j - 1] == s[j - 1]);
        }
    }
    assert(f.subrange(0, i + 1) =~= slots_down((i + 1) as nat));
}

/// The least-recently-used replacement policy: one list that holds every buffer
/// slot, the next victim first and the most recently used last.
struct FindReplace {
    list: MultiList,
}

impl FindReplace {
    spec fn order(&self) -> Seq<usize> {
        self.list@[0]
    }

    spec fn wf(&self) -> bool {
        &&& self.list.wf()
        &&& self.list.spec_list_num() == 1
        &&& self.list.spec_capacity() >= BUF_PAGE_CAPACITY
        &&& is_slot_order(self.order())
    }

    proof fn lemma_single_list(&self, e: usize)
        requires
            self.wf(),
            e < BUF_PAGE_CAPACITY,
        ensures
            self.list@.len() == 1,
            in_lists(self.list@, e),
            erase_view(self.list@, e) == seq![self.order().remove(self.order().index_of(e))],
    {
        self.list.lemma_wf();
        let s = self.order();
        assert(s.contains(e));
        let k = s.index_of(e);
        assert(valid_pos(self.list@, 0, k));
        lemma_erase_view_at(self.list@, self.list.spec_capacity(), 0, k);
        assert(self.list@.update(0, s.remove(k)) =~= seq![s.remove(k)]);
    }

    fn new(capacity: usize) -> (res: FindReplace)
        requires
            BUF_PAGE_CAPACITY <= capacity < usize::MAX,
        ensures
            res.wf(),
            res.order() == Seq::new(BUF_PAGE_CAPACITY as nat, |j: int| j as usize),
    {
        let mut list = MultiList::new(capacity, 1);
        let mut i: usize = 0;
        while i < BUF_PAGE_CAPACITY
            invariant
                i <= BUF_PAGE_CAPACITY <= capacity,
                list.wf(),
                list.spec_capacity() == capacity,
                list.spec_list_num() == 1,
                list@.len() == 1,
                list@[0] == Seq::new(i as nat, |j: int| j as usize),
            decreases BUF_PAGE_CAPACITY - i,
        {
            proof {
                list.lemma_wf();
                if in_lists(list@, i) {
                    let (l, k) = choose|l: int, k: int|
                        #![trigger list@[l][k]]
                        valid_pos(list@, l, k) && list@[l][k] == i;
                    assert(l == 0);
                }
            }
            list.insert(0, i);
            proof {
                assert(list@[0] =~= Seq::new((i + 1) as nat, |j: int| j as usize));
            }
            i = i + 1;
        }
        let res = FindReplace { list };
        proof {
            let s = res.order();
            assert forall|x: usize| x < BUF_PAGE_CAPACITY implies #[trigger] s.contains(x) by {
                assert(s[x as int] == x);
            }
        }
        res
    }

    /// Takes the slot at the front of the order, moves it to the back and returns it.
    fn find(&mut self) -> (idx: usize)
        requires
            old(self).wf(),
        ensures
            final(self).wf(),
            idx == old(self).order()[0],
            final(self).order() == old(self).order().drop_first().push(idx),
    {
        proof {
            self.list.lemma_wf();
            assert(valid_pos(self.list@, 0, 0));
        }
        let idx = self.list.get_first(0);
        proof {
            lemma_index_of_distinct(self.order(), 0);
            self.lemma_single_list(idx);
            lemma_move_keeps_order(self.order(), idx);
            assert(self.order().remove(0) =~= self.order().drop_first());
        }
        self.list.erase(idx);
        self.list.insert(0, idx);
        idx
    }

    /// Marks slot `idx` as the most recently used: moves it to the back.
    fn access(&mut self, idx: usize)
        requires
            old(self).wf(),
            idx < BUF_PAGE_CAPACITY,
        ensures
            final(self).wf(),
            final(self).order() == move_to_back(old(self).order(), idx),
    {
        proof {
            self.lemma_single_list(idx);
            lemma_move_keeps_order(self.order(), idx);
        }
        self.list.insert(0, idx)
    }

    /// Marks slot `idx` as free: moves it to the front, so that it is the next victim.
    fn free(&mut self, idx: usize)
        requires
            old(self).wf(),
            idx < BUF_PAGE_CAPACITY,
        ensures
            final(self).wf(),
            final(self).order() == move_to_front(old(self).order(), idx),
    {
        proof {
            self.lemma_single_list(idx);
            lemma_move_keeps_order(self.order(), idx);
        }
        self.list.insert_as_first(0, idx);
    }
}

// ---------------------------------------------------------------------------
// The buffer manager.
// ---------------------------------------------------------------------------

/// `s` with `bytes` written over it from position `start` on.
pub open spec fn overwrite(s: Seq<u8>, start: int, bytes: Seq<u8>) -> Seq<u8> {
    Seq::new(s.len(), |j: int| if start <= j < start + bytes.len() { bytes[j - start] } else { s[j] })
}

/// The slots `0..n` in increasing order.
pub open spec fn slot_range(n: nat) -> Seq<usize> {
    Seq::new(n, |j: int| j as usize)
}

/// The write-backs that freeing the slots `0..n` in turn asks for: each dirty
/// slot, in increasing order, with the page it holds.
pub open spec fn dirty_writes(dirty: Seq<bool>, pages: Map<usize, PagePos>, n: nat) -> Seq<
    (usize, PagePos),
>
    decreases n,
{
    if n == 0 {
        Seq::empty()
    } else {
        let prev = dirty_writes(dirty, pages, (n - 1) as nat);
        let i = (n - 1) as usize;
        if dirty[n - 1] {
            prev.push((i, pages[i]))
        } else {
            prev
        }
    }
}

/// The slots among `0..n`, in increasing order, that hold a page of file `file_id`.
pub open spec fn file_slots(pages: Map<usize, PagePos>, file_id: usize, n: nat) -> Seq<usize>
    decreases n,
{
    if n == 0 {
        Seq::empty()
    } else {
        let prev = file_slots(pages, file_id, (n - 1) as nat);
        let i = (n - 1) as usize;
        if pages[i].0 == file_id {
            prev.push(i)
        } else {
            prev
        }
    }
}

/// The write-backs that freeing the slots of `file_slots(pages, file_id, n)` in
/// turn asks for: each of them that is dirty, with the page it holds.
pub open spec fn file_writes(dirty: Seq<bool>, pages: Map<usize, PagePos>, file_id: usize, n: nat) -> Seq<
    (usize, PagePos),
>
    decreases n,
{
    if n == 0 {
        Seq::empty()
    } else {
        let prev = file_writes(dirty, pages, file_id, (n - 1) as nat);
        let i = (n - 1) as usize;
        if pages[i].0 == file_id && dirty[n - 1] {
            prev.push((i, pages[i]))
        } else {
            prev
        }
    }
}

/// The write-backs of a flush of the slots `0..n`: each entry is a dirty slot
/// with the page it holds, the slots in increasing order, and every dirty slot
/// among `0..n` is there.
pub proof fn lemma_dirty_writes(dirty: Seq<bool>, pages: Map<usize, PagePos>, n: nat)
    requires
        n <= dirty.len(),
        n <= BUF_PAGE_CAPACITY,
    ensures
        forall|j: int|
            0 <= j < dirty_writes(dirty, pages, n).len() ==> {
                let w = #[trigger] dirty_writes(dirty, pages, n)[j];
                &&& w.0 < n
                &&& dirty[w.0 as int]
                &&& w.1 == pages[w.0]
            },
        forall|i: int|
            0 <= i < n && #[trigger] dirty[i] ==> exists|j: int|
                0 <= j < dirty_writes(dirty, pages, n).len() && dirty_writes(dirty, pages, n)[j] == (
                    i as usize,
                    pages[i as usize],
                ),
        forall|j1: int, j2: int|
            0 <= j1 < j2 < dirty_writes(dirty, pages, n).len() ==> (#[trigger] dirty_writes(
                dirty,
                pages,
                n,
            )[j1]).0 < (#[trigger] dirty_writes(dirty, pages, n)[j2]).0,
    decreases n,
{
    if n > 0 {
        lemma_dirty_writes(dirty, pages, (n - 1) as nat);
        let prev = dirty_writes(dirty, pages, (n - 1) as nat);
        let w = dirty_writes(dirty, pages, n);
        assert forall|i: int| 0 <= i < n && #[trigger] dirty[i] implies exists|j: int|
            0 <= j < w.len() && w[j] == (i as usize, pages[i as usize]) by {
            if i < n - 1 {
                let j = choose|j: int|
                    0 <= j < prev.len() && prev[j] == (i as usize, pages[i as usize]);
                assert(w[j] == prev[j]);
            } else {
                assert(w[w.len() - 1] == (i as usize, pages[i as usize]));
            }
        }
        assert forall|j: int| 0 <= j < w.len() implies {
            let x = #[trigger] w[j];
            &&& x.0 < n
            &&& dirty[x.0 as int]
            &&& x.1 == pages[x.0]
        } by {
            if j < prev.len() {
                assert(w[j] == prev[j]);
            }
        }
        assert forall|j1: int, j2: int| 0 <= j1 < j2 < w.len() implies (#[trigger] w[j1]).0 < (
        #[trigger] w[j2]).0 by {
            assert(w[j1] == prev[j1]);
            if j2 < prev.len() {
                assert(w[j2] == prev[j2]);
            }
        }
    }
}

/// The write-backs of a flush of one file among the slots `0..n`: each entry is a
/// dirty slot holding a page of that file, with that page, the slots in
/// increasing order, and every such slot among `0..n` is there.
pub proof fn lemma_file_writes(dirty: Seq<bool>, pages: Map<usize, PagePos>, file_id: usize, n: nat)
    requires
        n <= dirty.len(),
        n <= BUF_PAGE_CAPACITY,
    ensures
        forall|j: int|
            0 <= j < file_writes(dirty, pages, file_id, n).len() ==> {
                let w = #[trigger] file_writes(dirty, pages, file_id, n)[j];
                &&& w.0 < n
                &&& dirty[w.0 as int]
                &&& w.1 == pages[w.0]
                &&& w.1.0 == file_id
            },
        forall|i: int|
            0 <= i < n && #[trigger] dirty[i] && pages[i as usize].0 == file_id ==> exists|j: int|
                0 <= j < file_writes(dirty, pages, file_id, n).len() && file_writes(
                    dirty,
                    pages,
                    file_id,
                    n,
                )[j] == (i as usize, pages[i as usize]),
        forall|j1: int, j2: int|
            0 <= j1 < j2 < file_writes(dirty, pages, file_id, n).len() ==> (#[trigger] file_writes(
                dirty,
                pages,
                file_id,
                n,
            )[j1]).0 < (#[trigger] file_writes(dirty, pages, file_id, n)[j2]).0,
    decreases n,
{
    if n > 0 {
        lemma_file_writes(dirty, pages, file_id, (n - 1) as nat);
        let prev = file_writes(dirty, pages, file_id, (n - 1) as nat);
        let w = file_writes(dirty, pages, file_id, n);
        assert forall|i: int|
            0 <= i < n && #[trigger] dirty[i] && pages[i as usize].0 == file_id implies exists|j: int|
            0 <= j < w.len() && w[j] == (i as usize, pages[i as usize]) by {
            if i < n - 1 {
                let j = choose|j: int|
                    0 <= j < prev.len() && prev[j] == (i as usize, pages[i as usize]);
                assert(w[j] == prev[j]);
            } else {
                assert(w[w.len() - 1] == (i as usize, pages[i as usize]));
            }
        }
        assert forall|j: int| 0 <= j < w.len() implies {
            let x = #[trigger] w[j];
            &&& x.0 < n
            &&& dirty[x.0 as int]
            &&& x.1 == pages[x.0]
            &&& x.1.0 == file_id
        } by {
            if j < prev.len() {
                assert(w[j] == prev[j]);
            }
        }
        assert forall|j1: int, j2: int| 0 <= j1 < j2 < w.len() implies (#[trigger] w[j1]).0 < (
        #[trigger] w[j2]).0 by {
            assert(w[j1] == prev[j1]);
            if j2 < prev.len() {
                assert(w[j2] == prev[j2]);
            }
        }
    }
}

/// A slot given to a page holds it, and no other slot does: a lookup of the page
/// right after the fetch finds that slot.
pub proof fn lemma_fetch_then_lookup(pages: Map<usize, PagePos>, idx: usize, pos: PagePos)
    requires
        one_to_one(pages),
    ensures
        ({
            let after = bimap_insert(pages, idx, pos);
            &&& after.contains_key(idx)
            &&& after[idx] == pos
            &&& forall|i: usize| #[trigger] after.contains_key(i) && after[i] == pos ==> i == idx
        }),
{
    lemma_one_to_one_insert(pages, idx, pos);
}

/// Reading back the bytes just written gives them back, and the bytes outside the
/// written range are unchanged.
pub proof fn lemma_read_after_write(s: Seq<u8>, start: int, bytes: Seq<u8>, len: int)
    requires
        0 <= start,
        start + bytes.len() <= s.len(),
        0 <= len <= bytes.len(),
    ensures
        overwrite(s, start, bytes).subrange(start, start + len) == bytes.subrange(0, len),
        forall|j: int|
            0 <= j < s.len() && !(start <= j < start + bytes.len()) ==> #[trigger] overwrite(
                s,
                start,
                bytes,
            )[j] == s[j],
{
    assert(overwrite(s, start, bytes).subrange(start, start + len) =~= bytes.subrange(0, len));
}

/// A freed slot is the next victim; an accessed slot is the last one.
pub proof fn lemma_order_ends(s: Seq<usize>, e: usize)
    ensures
        move_to_front(s, e)[0] == e,
        move_to_back(s, e).last() == e,
{
}

/// The bytes of slot `idx` within the buffer bytes `buf`.
pub open spec fn slot_bytes(buf: Seq<u8>, idx: int) -> Seq<u8> {
    buf.subrange(idx * PAGE_SIZE, idx * PAGE_SIZE + PAGE_SIZE)
}

/// Writing within slot `a` changes only the bytes of slot `a`.
pub proof fn lemma_slot_of_overwrite(buf: Seq<u8>, a: int, bytes: Seq<u8>, b: int)
    requires
        buf.len() == BUF_PAGE_CAPACITY * PAGE_SIZE,
        0 <= a < BUF_PAGE_CAPACITY,
        0 <= b < BUF_PAGE_CAPACITY,
        bytes.len() <= PAGE_SIZE,
    ensures
        slot_bytes(overwrite(buf, a * PAGE_SIZE, bytes), b) == if a == b {
            overwrite(slot_bytes(buf, b), 0, bytes)
        } else {
            slot_bytes(buf, b)
        },
{
    if a == b {
        assert(slot_bytes(overwrite(buf, a * PAGE_SIZE, bytes), b) =~= overwrite(
            slot_bytes(buf, b),
            0,
            bytes,
        ));
    } else {
        assert(slot_bytes(overwrite(buf, a * PAGE_SIZE, bytes), b) =~= slot_bytes(buf, b));
    }
}

/// A buffer whose next victim is clean, or dirty but holding a page, can fetch:
/// the victim's page is written back and the slot reused.
pub proof fn lemma_mapped_victim_evictable(bm: BufManager)
    requires
        bm.dirty_view()[bm.order()[0] as int] ==> bm.pages().contains_key(bm.order()[0]),
    ensures
        bm.evictable(),
{
}

/// What the caller of a slot fetch has to do with the disk: write the evicted
/// page's bytes (still in the slot) back first, then, if asked, read the new
/// page's bytes into the slot.
pub struct PageFetch {
    /// The buffer slot that now holds the page.
    pub idx: usize,
    /// The page whose bytes are in the slot and must be written back before the slot is reused.
    pub evicted: Option<PagePos>,
    /// The page's bytes must be read from disk into the slot.
    pub read: bool,
}

/// A buffer of `BUF_PAGE_CAPACITY` page slots in front of the files: each slot
/// may hold one page of one file, may be dirty, and is reused in
/// least-recently-used order.
pub struct BufManager {
    pub fm: FileManager,
    dirty: Vec<bool>,
    buffer: Vec<u8>,
    hash: BiHashMap<usize, PagePos>,
    findreplace: FindReplace,
    last: Option<usize>,
}

impl BufManager {
    /// The file registry.
    pub closed spec fn file_manager(&self) -> FileManager {
        self.fm
    }

    /// Which slots are dirty.
    pub closed spec fn dirty_view(&self) -> Seq<bool> {
        self.dirty@
    }

    /// The bytes of all slots, slot after slot.
    pub closed spec fn buffer_view(&self) -> Seq<u8> {
        self.buffer@
    }

    /// The page each occupied slot holds.
    pub closed spec fn pages(&self) -> Map<usize, PagePos> {
        slot_pairs(self.hash)
    }

    /// The replacement order: the next victim first, the most recently used last.
    pub closed spec fn order(&self) -> Seq<usize> {
        self.findreplace.order()
    }

    /// The slot that was last marked as accessed.
    pub closed spec fn last_access(&self) -> Option<usize> {
        self.last
    }

    pub closed spec fn wf(&self) -> bool {
        &&& self.dirty@.len() == BUF_PAGE_CAPACITY
        &&& self.buffer@.len() == BUF_PAGE_CAPACITY * PAGE_SIZE
        &&& self.findreplace.wf()
        &&& one_to_one(self.pages())
        &&& forall|i: usize| #[trigger] self.pages().contains_key(i) ==> i < BUF_PAGE_CAPACITY
        &&& self.last.is_some() ==> self.findreplace.order().last() == self.last.unwrap()
    }

    /// What follows from well-formedness for users: the sizes, the replacement
    /// order holds every slot once, the slot-to-page map is one-to-one over slots.
    pub proof fn lemma_wf(&self)
        requires
            self.wf(),
        ensures
            self.dirty_view().len() == BUF_PAGE_CAPACITY,
            self.buffer_view().len() == BUF_PAGE_CAPACITY * PAGE_SIZE,
            is_slot_order(self.order()),
            one_to_one(self.pages()),
            forall|i: usize| #[trigger] self.pages().contains_key(i) ==> i < BUF_PAGE_CAPACITY,
    {
    }

    /// The next victim can be taken: if it is dirty, it holds a page to write back.
    pub open spec fn evictable(&self) -> bool {
        self.dirty_view()[self.order()[0] as int] ==> self.pages().contains_key(self.order()[0])
    }

    /// Some slot holds page `pos`.
    pub open spec fn holds(&self, pos: PagePos) -> bool {
        exists|i: usize| #[trigger] self.pages().contains_key(i) && self.pages()[i] == pos
    }

    /// An empty buffer: all slots clean and free, zero bytes, the slots in increasing order.
    pub fn new() -> (res: BufManager)
        ensures
            res.wf(),
            res.file_manager().wf(),
            res.file_manager().current_db() == None::<Seq<char>>,
            res.file_manager().files().is_empty(),
            res.file_manager().spec_next_id() == 0,
            res.dirty_view() == Seq::new(BUF_PAGE_CAPACITY as nat, |i: int| false),
            res.buffer_view() == Seq::new((BUF_PAGE_CAPACITY * PAGE_SIZE) as nat, |i: int| 0u8),
            res.pages().is_empty(),
            res.order() == Seq::new(BUF_PAGE_CAPACITY as nat, |j: int| j as usize),
            res.last_access() == None::<usize>,
    {
        let mut buffer: Vec<u8> = Vec::new();
        let mut i: usize = 0;
        while i < BUF_PAGE_CAPACITY * PAGE_SIZE
            invariant
                i <= BUF_PAGE_CAPACITY * PAGE_SIZE,
                buffer@ == Seq::new(i as nat, |j: int| 0u8),
            decreases BUF_PAGE_CAPACITY * PAGE_SIZE - i,
        {
            buffer.push(0u8);
            i = i + 1;
        }
        let mut dirty: Vec<bool> = Vec::new();
        let mut i: usize = 0;
        while i < BUF_PAGE_CAPACITY
            invariant
                i <= BUF_PAGE_CAPACITY,
                dirty@ == Seq::new(i as nat, |j: int| false),
            decreases BUF_PAGE_CAPACITY - i,
        {
            dirty.push(false);
            i = i + 1;
        }
        let hash = slot_map_new();
        let res = BufManager {
            fm: FileManager::new(),
            dirty,
            buffer,
            hash,
            findreplace: FindReplace::new(BUF_PAGE_CAPACITY),
            last: None,
        };
        proof {
            assert(res.pages() =~= Map::<usize, PagePos>::empty());
        }
        res
    }

    /// Whether the next victim can be taken: it is clean, or it holds a page
    /// (which a fetch writes back before reusing the slot).
    pub fn can_evict(&self) -> (res: bool)
        requires
            self.wf(),
        ensures
            res == self.evictable(),
            res == (self.dirty_view()[self.order()[0] as int] ==> self.pages().contains_key(
                self.order()[0],
            )),
    {
        proof {
            self.findreplace.list.lemma_wf();
            assert(valid_pos(self.findreplace.list@, 0, 0));
        }
        let idx = self.findreplace.list.get_first(0);
        if self.dirty[idx] {
            match slot_map_get_by_left(&self.hash, idx) {
                Some(_) => true,
                None => false,
            }
        } else {
            true
        }
    }

    /// Gives the least recently used slot to page (`file_id`, `page_id`) and moves
    /// it to the back of the order.  Returns the slot and, when the slot was dirty,
    /// the page it held, whose bytes are still in the slot and must be written back.
    pub fn fetch_page(&mut self, file_id: usize, page_id: usize) -> (res: (usize, Option<PagePos>))
        requires
            old(self).wf(),
            old(self).evictable(),
        ensures
            final(self).wf(),
            res.0 == old(self).order()[0],
            res.1 == if old(self).dirty_view()[res.0 as int] {
                Some(old(self).pages()[res.0])
            } else {
                None::<PagePos>
            },
            final(self).order() == old(self).order().drop_first().push(res.0),
            final(self).dirty_view() == old(self).dirty_view().update(res.0 as int, false),
            final(self).pages() == bimap_insert(old(self).pages(), res.0, (file_id, page_id)),
            final(self).buffer_view() == old(self).buffer_view(),
            final(self).last_access() == None::<usize>,
            final(self).file_manager() == old(self).file_manager(),
    {
        let idx = self.findreplace.find();
        let mut evicted: Option<PagePos> = None;
        if self.dirty[idx] {
            evicted = slot_map_get_by_left(&self.hash, idx);
            self.dirty.set(idx, false);
        }
        let ghost old_pages = self.pages();
        slot_map_insert(&mut self.hash, idx, (file_id, page_id));
        proof {
            lemma_one_to_one_insert(old_pages, idx, (file_id, page_id));
        }
        self.last = None;
        (idx, evicted)
    }
    /// Gives a slot to page (`file_id`, `page_id`), as `fetch_page` does; the
    /// page's bytes are to be read into it when `is_read`.
    pub fn alloc_page(&mut self, file_id: usize, page_id: usize, is_read: bool) -> (res: PageFetch)
        requires
            old(self).wf(),
            old(self).evictable(),
        ensures
            final(self).wf(),
            res.idx == old(self).order()[0],
            res.evicted == if old(self).dirty_view()[res.idx as int] {
                Some(old(self).pages()[res.idx])
            } else {
                None::<PagePos>
            },
            res.read == is_read,
            final(self).order() == old(self).order().drop_first().push(res.idx),
            final(self).dirty_view() == old(self).dirty_view().update(res.idx as int, false),
            final(self).pages() == bimap_insert(old(self).pages(), res.idx, (file_id, page_id)),
            final(self).buffer_view() == old(self).buffer_view(),
            final(self).last_access() == None::<usize>,
            final(self).file_manager() == old(self).file_manager(),
    {
        let (idx, evicted) = self.fetch_page(file_id, page_id);
        PageFetch { idx, evicted, read: is_read }
    }

    /// The slot that holds page (`file_id`, `page_id`).  When one does, it is marked
    /// as accessed; otherwise a slot is fetched for the page (as `fetch_page` does)
    /// and the page's bytes are to be read into it.
    pub fn get_buf_id(&mut self, file_id: usize, page_id: usize) -> (res: PageFetch)
        requires
            old(self).wf(),
            old(self).holds((file_id, page_id)) || old(self).evictable(),
        ensures
            final(self).wf(),
            res.read == !old(self).holds((file_id, page_id)),
            !res.read ==> {
                &&& old(self).pages().contains_key(res.idx)
                &&& old(self).pages()[res.idx] == (file_id, page_id)
                &&& res.evicted is None
                &&& final(self).order() == move_to_back(old(self).order(), res.idx)
                &&& final(self).last_access() == Some(res.idx)
                &&& final(self).dirty_view() == old(self).dirty_view()
                &&& final(self).pages() == old(self).pages()
            },
            res.read ==> {
                &&& res.idx == old(self).order()[0]
                &&& res.evicted == if old(self).dirty_view()[res.idx as int] {
                    Some(old(self).pages()[res.idx])
                } else {
                    None::<PagePos>
                }
                &&& final(self).order() == old(self).order().drop_first().push(res.idx)
                &&& final(self).dirty_view() == old(self).dirty_view().update(res.idx as int, false)
                &&& final(self).pages() == bimap_insert(old(self).pages(), res.idx, (file_id, page_id))
                &&& final(self).last_access() == None::<usize>
            },
            final(self).buffer_view() == old(self).buffer_view(),
            final(self).file_manager() == old(self).file_manager(),
    {
        match slot_map_get_by_right(&self.hash, (file_id, page_id)) {
            Some(idx) => {
                self.access(idx);
                PageFetch { idx, evicted: None, read: false }
            },
            None => {
                let (idx, evicted) = self.fetch_page(file_id, page_id);
                PageFetch { idx, evicted, read: true }
            },
        }
    }

    /// Marks slot `idx` as accessed: moves it to the back of the order (where it
    /// already is when it was the slot last marked and nothing has moved since).
    pub fn access(&mut self, idx: usize)
        requires
            old(self).wf(),
            idx < BUF_PAGE_CAPACITY,
        ensures
            final(self).wf(),
            final(self).order() == move_to_back(old(self).order(), idx),
            final(self).last_access() == Some(idx),
            final(self).dirty_view() == old(self).dirty_view(),
            final(self).pages() == old(self).pages(),
            final(self).buffer_view() == old(self).buffer_view(),
            final(self).file_manager() == old(self).file_manager(),
    {
        proof {
            self.findreplace.list.lemma_wf();
            lemma_order_ends(self.order(), idx);
        }
        match self.last {
            Some(val) => {
                if val == idx {
                    proof {
                        lemma_move_last_to_back(self.order());
                    }
                    return ;
                }
            },
            None => {},
        }
        self.findreplace.access(idx);
        self.last = Some(idx);
    }

    /// Marks slot `idx` as dirty and as accessed.
    pub fn mark_dirty(&mut self, idx: usize)
        requires
            old(self).wf(),
            idx < BUF_PAGE_CAPACITY,
        ensures
            final(self).wf(),
            final(self).dirty_view() == old(self).dirty_view().update(idx as int, true),
            final(self).order() == move_to_back(old(self).order(), idx),
            final(self).last_access() == Some(idx),
            final(self).pages() == old(self).pages(),
            final(self).buffer_view() == old(self).buffer_view(),
            final(self).file_manager() == old(self).file_manager(),
    {
        self.dirty.set(idx, true);
        self.access(idx);
    }

    /// Frees slot `idx`: clean, holding no page, and first in the order.
    pub fn release(&mut self, idx: usize)
        requires
            old(self).wf(),
            idx < BUF_PAGE_CAPACITY,
        ensures
            final(self).wf(),
            final(self).dirty_view() == old(self).dirty_view().update(idx as int, false),
            final(self).order() == move_to_front(old(self).order(), idx),
            final(self).pages() == old(self).pages().remove(idx),
            final(self).last_access() == if old(self).last_access() == Some(idx) {
                None::<usize>
            } else {
                old(self).last_access()
            },
            final(self).buffer_view() == old(self).buffer_view(),
            final(self).file_manager() == old(self).file_manager(),
    {
        proof {
            if self.last.is_some() && self.last.unwrap() != idx {
                lemma_move_to_front_keeps_last(self.order(), idx);
            }
        }
        self.dirty.set(idx, false);
        self.findreplace.free(idx);
        if self.last == Some(idx) {
            self.last = None;
        }
        let ghost old_pages = self.pages();
        slot_map_remove_by_left(&mut self.hash, idx);
        proof {
            lemma_one_to_one_remove(old_pages, idx);
        }
    }

    /// Frees slot `idx` (as `release` does).  When it was dirty, returns the page it
    /// held, whose bytes are still in the slot and are to be written back.
    pub fn write_back(&mut self, idx: usize) -> (res: Option<PagePos>)
        requires
            old(self).wf(),
            idx < BUF_PAGE_CAPACITY,
            old(self).dirty_view()[idx as int] ==> old(self).pages().contains_key(idx),
        ensures
            final(self).wf(),
            res == if old(self).dirty_view()[idx as int] {
                Some(old(self).pages()[idx])
            } else {
                None::<PagePos>
            },
            final(self).dirty_view() == old(self).dirty_view().update(idx as int, false),
            final(self).order() == move_to_front(old(self).order(), idx),
            final(self).pages() == old(self).pages().remove(idx),
            final(self).last_access() == if old(self).last_access() == Some(idx) {
                None::<usize>
            } else {
                old(self).last_access()
            },
            final(self).buffer_view() == old(self).buffer_view(),
            final(self).file_manager() == old(self).file_manager(),
    {
        let mut res: Option<PagePos> = None;
        if self.dirty[idx] {
            res = slot_map_get_by_left(&self.hash, idx);
            self.dirty.set(idx, false);
        }
        self.release(idx);
        res
    }

    /// The page slot `idx` holds.
    pub fn get_physical_page_pos(&self, idx: usize) -> (res: PagePos)
        requires
            self.pages().contains_key(idx),
        ensures
            res == self.pages()[idx],
    {
        match slot_map_get_by_left(&self.hash, idx) {
            Some(pos) => pos,
            None => (0, 0),
        }
    }

    /// The page slot `idx` holds, if any.
    pub fn page_of_slot(&self, idx: usize) -> (res: Option<PagePos>)
        ensures
            match res {
                Some(pos) => self.pages().contains_key(idx) && self.pages()[idx] == pos,
                None => !self.pages().contains_key(idx),
            },
    {
        slot_map_get_by_left(&self.hash, idx)
    }

    /// The slot that holds page (`file_id`, `page_id`), if any.
    pub fn find_slot(&self, file_id: usize, page_id: usize) -> (res: Option<usize>)
        ensures
            match res {
                Some(idx) => self.pages().contains_key(idx) && self.pages()[idx] == (file_id, page_id),
                None => !self.holds((file_id, page_id)),
            },
    {
        slot_map_get_by_right(&self.hash, (file_id, page_id))
    }

    /// Whether slot `idx` is dirty.
    pub fn is_dirty(&self, idx: usize) -> (res: bool)
        requires
            self.wf(),
            idx < BUF_PAGE_CAPACITY,
        ensures
            res == self.dirty_view()[idx as int],
    {
        self.dirty[idx]
    }

    /// Writes `buf` into slot `idx` from byte `offset` of the slot on, and marks the slot dirty.
    pub fn write(&mut self, idx: usize, buf: &[u8], offset: usize)
        requires
            old(self).wf(),
            idx < BUF_PAGE_CAPACITY,
            offset + buf@.len() <= PAGE_SIZE,
        ensures
            final(self).wf(),
            final(self).buffer_view() == overwrite(
                old(self).buffer_view(),
                idx * PAGE_SIZE + offset,
                buf@,
            ),
            final(self).dirty_view() == old(self).dirty_view().update(idx as int, true),
            final(self).order() == old(self).order(),
            final(self).pages() == old(self).pages(),
            final(self).last_access() == old(self).last_access(),
            final(self).file_manager() == old(self).file_manager(),
    {
        let start = idx * PAGE_SIZE + offset;
        let mut j: usize = 0;
        while j < buf.len()
            invariant
                start == idx * PAGE_SIZE + offset,
                idx < BUF_PAGE_CAPACITY,
                offset + buf@.len() <= PAGE_SIZE,
                j <= buf@.len(),
                self.buffer@ == overwrite(old(self).buffer@, start as int, buf@.subrange(0, j as int)),
                self.dirty == old(self).dirty,
                self.hash == old(self).hash,
                self.findreplace == old(self).findreplace,
                self.last == old(self).last,
                self.fm == old(self).fm,
                old(self).wf(),
            decreases buf@.len() - j,
        {
            self.buffer.set(start + j, buf[j]);
            j = j + 1;
            proof {
                assert(self.buffer@ =~= overwrite(
                    old(self).buffer@,
                    start as int,
                    buf@.subrange(0, j as int),
                ));
            }
        }
        proof {
            assert(buf@.subrange(0, buf@.len() as int) =~= buf@);
        }
        self.dirty.set(idx, true);
    }

    /// Fills slot `idx` with the bytes of a page.
    pub fn load_page(&mut self, idx: usize, page: &[u8])
        requires
            old(self).wf(),
            idx < BUF_PAGE_CAPACITY,
            page@.len() == PAGE_SIZE,
        ensures
            final(self).wf(),
            final(self).buffer_view() == overwrite(old(self).buffer_view(), idx * PAGE_SIZE, page@),
            final(self).dirty_view() == old(self).dirty_view(),
            final(self).order() == old(self).order(),
            final(self).pages() == old(self).pages(),
            final(self).last_access() == old(self).last_access(),
            final(self).file_manager() == old(self).file_manager(),
    {
        let start = idx * PAGE_SIZE;
        let mut j: usize = 0;
        while j < page.len()
            invariant
                start == idx * PAGE_SIZE,
                idx < BUF_PAGE_CAPACITY,
                page@.len() == PAGE_SIZE,
                j <= page@.len(),
                self.buffer@ == overwrite(old(self).buffer@, start as int, page@.subrange(0, j as int)),
                self.dirty == old(self).dirty,
                self.hash == old(self).hash,
                self.findreplace == old(self).findreplace,
                self.last == old(self).last,
                self.fm == old(self).fm,
                old(self).wf(),
            decreases page@.len() - j,
        {
            self.buffer.set(start + j, page[j]);
            j = j + 1;
            proof {
                assert(self.buffer@ =~= overwrite(
                    old(self).buffer@,
                    start as int,
                    page@.subrange(0, j as int),
                ));
            }
        }
        proof {
            assert(page@.subrange(0, page@.len() as int) =~= page@);
        }
    }

    /// The first `len` bytes of slot `idx`.
    pub fn read(&self, idx: usize, len: usize) -> (res: &[u8])
        requires
            self.wf(),
            idx < BUF_PAGE_CAPACITY,
            len <= PAGE_SIZE,
        ensures
            res@ == self.buffer_view().subrange(idx * PAGE_SIZE, idx * PAGE_SIZE + len),
    {
        vstd::slice::slice_subrange(self.buffer.as_slice(), idx * PAGE_SIZE, idx * PAGE_SIZE + len)
    }
    /// The file registry, to be changed in place; the buffer itself stays as it is.
    pub fn file_manager_mut(&mut self) -> (res: &mut FileManager)
        ensures
            *res == old(self).file_manager(),
            final(self).file_manager() == *final(res),
            final(self).dirty_view() == old(self).dirty_view(),
            final(self).buffer_view() == old(self).buffer_view(),
            final(self).pages() == old(self).pages(),
            final(self).order() == old(self).order(),
            final(self).last_access() == old(self).last_access(),
            old(self).wf() ==> final(self).wf(),
    {
        &mut self.fm
    }

    /// The next two victims: the first two slots of the order.
    pub fn next_victims(&self) -> (res: (usize, usize))
        requires
            self.wf(),
        ensures
            res.0 == self.order()[0],
            res.1 == self.order()[1],
    {
        proof {
            self.findreplace.list.lemma_wf();
            assert(valid_pos(self.findreplace.list@, 0, 0));
            lemma_erase_view_at(self.findreplace.list@, self.findreplace.list.spec_capacity(), 0, 0);
        }
        let first = self.findreplace.list.get_first(0);
        let second = self.findreplace.list.next(first);
        (first, second)
    }

    /// The file registry.
    pub fn file_manager_ref(&self) -> (res: &FileManager)
        ensures
            *res == self.file_manager(),
    {
        &self.fm
    }

    /// Frees every slot, in increasing order (as `write_back` does), and returns
    /// the write-backs asked for, in that order.
    pub fn write_back_all(&mut self) -> (res: Vec<(usize, PagePos)>)
        requires
            old(self).wf(),
            forall|i: int|
                0 <= i < BUF_PAGE_CAPACITY ==> #[trigger] old(self).dirty_view()[i]
                    ==> old(self).pages().contains_key(i as usize),
        ensures
            final(self).wf(),
            res@ == dirty_writes(old(self).dirty_view(), old(self).pages(), BUF_PAGE_CAPACITY as nat),
            forall|j: int|
                0 <= j < res@.len() ==> {
                    let w = #[trigger] res@[j];
                    &&& w.0 < BUF_PAGE_CAPACITY
                    &&& old(self).dirty_view()[w.0 as int]
                    &&& old(self).pages().contains_key(w.0)
                    &&& w.1 == old(self).pages()[w.0]
                },
            forall|i: int|
                0 <= i < BUF_PAGE_CAPACITY && #[trigger] old(self).dirty_view()[i] ==> exists|j: int|
                    0 <= j < res@.len() && res@[j] == (i as usize, old(self).pages()[i as usize]),
            forall|j1: int, j2: int|
                0 <= j1 < j2 < res@.len() ==> (#[trigger] res@[j1]).0 < (#[trigger] res@[j2]).0,
            final(self).dirty_view() == Seq::new(BUF_PAGE_CAPACITY as nat, |i: int| false),
            final(self).pages().is_empty(),
            final(self).order() == fronts(old(self).order(), slot_range(BUF_PAGE_CAPACITY as nat)),
            final(self).order() == slots_down(BUF_PAGE_CAPACITY as nat),
            final(self).last_access() == None::<usize>,
            final(self).buffer_view() == old(self).buffer_view(),
            final(self).file_manager() == old(self).file_manager(),
    {
        let ghost old_dirty = self.dirty_view();
        let ghost old_pages = self.pages();
        let ghost old_order = self.order();
        let ghost old_last = self.last_access();
        proof {
            if old_last.is_some() {
                self.findreplace.list.lemma_wf();
                assert(self.order()[self.order().len() - 1] < BUF_PAGE_CAPACITY);
            }
        }
        let mut writes: Vec<(usize, PagePos)> = Vec::new();
        let mut i: usize = 0;
        while i < BUF_PAGE_CAPACITY
            invariant
                i <= BUF_PAGE_CAPACITY,
                self.wf(),
                old_dirty.len() == BUF_PAGE_CAPACITY,
                forall|j: int|
                    0 <= j < BUF_PAGE_CAPACITY ==> #[trigger] old_dirty[j]
                        ==> old_pages.contains_key(j as usize),
                forall|k: usize| #[trigger] old_pages.contains_key(k) ==> k < BUF_PAGE_CAPACITY,
                writes@ == dirty_writes(old_dirty, old_pages, i as nat),
                forall|j: int|
                    0 <= j < BUF_PAGE_CAPACITY ==> #[trigger] self.dirty_view()[j] == if j < i {
                        false
                    } else {
                        old_dirty[j]
                    },
                self.pages() == Map::new(
                    |k: usize| old_pages.contains_key(k) && k >= i,
                    |k: usize| old_pages[k],
                ),
                self.order() == fronts(old_order, slot_range(i as nat)),
                self.order().subrange(0, i as int) == slots_down(i as nat),
                old_last == old(self).last_access(),
                old_last.is_some() ==> old_last.unwrap() < BUF_PAGE_CAPACITY,
                self.last_access() == if old_last.is_some() && old_last.unwrap() < i {
                    None::<usize>
                } else {
                    old_last
                },
                self.buffer_view() == old(self).buffer_view(),
                self.file_manager() == old(self).file_manager(),
            decreases BUF_PAGE_CAPACITY - i,
        {
            let ghost pre_pages = self.pages();
            let ghost pre_order = self.order();
            proof {
                self.lemma_wf();
                lemma_front_extends_down(pre_order, i);
            }
            assert(old_dirty[i as int] ==> pre_pages.contains_key(i));
            let w = self.write_back(i);
            match w {
                Some(pos) => {
                    writes.push((i, pos));
                },
                None => {},
            }
            proof {
                assert(self.pages() =~= Map::new(
                    |k: usize| old_pages.contains_key(k) && k >= i + 1,
                    |k: usize| old_pages[k],
                ));
                assert(slot_range((i + 1) as nat).drop_last() =~= slot_range(i as nat));
                assert(slot_range((i + 1) as nat).last() == i);
            }
            i = i + 1;
        }
        proof {
            assert(self.pages() =~= Map::<usize, PagePos>::empty());
            assert(self.dirty_view() =~= Seq::new(BUF_PAGE_CAPACITY as nat, |i: int| false));
            lemma_dirty_writes(old_dirty, old_pages, BUF_PAGE_CAPACITY as nat);
            self.lemma_wf();
            assert(self.order() =~= self.order().subrange(0, BUF_PAGE_CAPACITY as int));
        }
        writes
    }

    /// Frees, in increasing order, every slot that holds a page of file `file_id`
    /// (as `write_back` does), and returns the write-backs asked for, in that order.
    pub fn write_back_by_file_id(&mut self, file_id: usize) -> (res: Vec<(usize, PagePos)>)
        requires
            old(self).wf(),
            forall|i: usize| i < BUF_PAGE_CAPACITY ==> #[trigger] old(self).pages().contains_key(i),
        ensures
            final(self).wf(),
            res@ == file_writes(
                old(self).dirty_view(),
                old(self).pages(),
                file_id,
                BUF_PAGE_CAPACITY as nat,
            ),
            forall|j: int|
                0 <= j < res@.len() ==> {
                    let w = #[trigger] res@[j];
                    &&& w.0 < BUF_PAGE_CAPACITY
                    &&& old(self).dirty_view()[w.0 as int]
                    &&& old(self).pages().contains_key(w.0)
                    &&& w.1 == old(self).pages()[w.0]
                    &&& w.1.0 == file_id
                },
            forall|i: int|
                0 <= i < BUF_PAGE_CAPACITY && #[trigger] old(self).dirty_view()[i] && old(
                    self,
                ).pages()[i as usize].0 == file_id ==> exists|j: int|
                    0 <= j < res@.len() && res@[j] == (i as usize, old(self).pages()[i as usize]),
            forall|j1: int, j2: int|
                0 <= j1 < j2 < res@.len() ==> (#[trigger] res@[j1]).0 < (#[trigger] res@[j2]).0,
            final(self).dirty_view() == Seq::new(
                BUF_PAGE_CAPACITY as nat,
                |j: int|
                    if old(self).pages()[j as usize].0 == file_id {
                        false
                    } else {
                        old(self).dirty_view()[j]
                    },
            ),
            final(self).pages() == Map::new(
                |k: usize| old(self).pages().contains_key(k) && old(self).pages()[k].0 != file_id,
                |k: usize| old(self).pages()[k],
            ),
            final(self).order() == fronts(
                old(self).order(),
                file_slots(old(self).pages(), file_id, BUF_PAGE_CAPACITY as nat),
            ),
            final(self).last_access() == if old(self).last_access().is_some() && old(
                self,
            ).pages()[old(self).last_access().unwrap()].0 == file_id {
                None::<usize>
            } else {
                old(self).last_access()
            },
            final(self).buffer_view() == old(self).buffer_view(),
            final(self).file_manager() == old(self).file_manager(),
    {
        let ghost old_dirty = self.dirty_view();
        let ghost old_pages = self.pages();
        let ghost old_order = self.order();
        let ghost old_last = self.last_access();
        proof {
            if old_last.is_some() {
                self.findreplace.list.lemma_wf();
                assert(self.order()[self.order().len() - 1] < BUF_PAGE_CAPACITY);
            }
        }
        let mut writes: Vec<(usize, PagePos)> = Vec::new();
        let mut i: usize = 0;
        while i < BUF_PAGE_CAPACITY
            invariant
                i <= BUF_PAGE_CAPACITY,
                self.wf(),
                old_dirty.len() == BUF_PAGE_CAPACITY,
                forall|j: usize| j < BUF_PAGE_CAPACITY ==> #[trigger] old_pages.contains_key(j),
                writes@ == file_writes(old_dirty, old_pages, file_id, i as nat),
                forall|j: int|
                    0 <= j < BUF_PAGE_CAPACITY ==> #[trigger] self.dirty_view()[j] == if j < i
                        && old_pages[j as usize].0 == file_id {
                        false
                    } else {
                        old_dirty[j]
                    },
                self.pages() == Map::new(
                    |k: usize|
                        old_pages.contains_key(k) && !(k < i && old_pages[k].0 == file_id),
                    |k: usize| old_pages[k],
                ),
                self.order() == fronts(old_order, file_slots(old_pages, file_id, i as nat)),
                old_last == old(self).last_access(),
                old_last.is_some() ==> old_last.unwrap() < BUF_PAGE_CAPACITY,
                self.last_access() == if old_last.is_some() && old_last.unwrap() < i
                    && old_pages[old_last.unwrap()].0 == file_id {
                    None::<usize>
                } else {
                    old_last
                },
                self.buffer_view() == old(self).buffer_view(),
                self.file_manager() == old(self).file_manager(),
            decreases BUF_PAGE_CAPACITY - i,
        {
            assert(old_pages.contains_key(i));
            let (f, _) = slot_map_get_by_left(&self.hash, i).unwrap();
            if f == file_id {
                let w = self.write_back(i);
                match w {
                    Some(pos) => {
                        writes.push((i, pos));
                    },
                    None => {},
                }
            }
            proof {
                let fs = file_slots(old_pages, file_id, i as nat);
                if f == file_id {
                    assert(fs.push(i).drop_last() =~= fs);
                }
                assert(self.pages() =~= Map::new(
                    |k: usize|
                        old_pages.contains_key(k) && !(k < i + 1 && old_pages[k].0 == file_id),
                    |k: usize| old_pages[k],
                ));
            }
            i = i + 1;
        }
        proof {
            assert(self.pages() =~= Map::new(
                |k: usize| old_pages.contains_key(k) && old_pages[k].0 != file_id,
                |k: usize| old_pages[k],
            ));
            assert(self.dirty_view() =~= Seq::new(
                BUF_PAGE_CAPACITY as nat,
                |j: int|
                    if old_pages[j as usize].0 == file_id {
                        false
                    } else {
                        old_dirty[j]
                    },
            ));
            lemma_file_writes(old_dirty, old_pages, file_id, BUF_PAGE_CAPACITY as nat);
        }
        writes
    }
}

// ---------------------------------------------------------------------------
// A one-to-one map between buffer slots and (file name, page id).
// ---------------------------------------------------------------------------

spec fn rev_entry_ok(m: Map<usize, (Seq<char>, usize)>, e: ((String, usize), usize)) -> bool {
    m.contains_key(e.1) && m[e.1] == (e.0.0@, e.0.1)
}

/// A one-to-one map from buffer slot to (file name, page id), searchable both ways.
pub struct CustomHashMap {
    hash: HashMap<usize, (String, usize)>,
    hash_rev: Vec<((String, usize), usize)>,
}

impl View for CustomHashMap {
    type V = Map<usize, (Seq<char>, usize)>;

    /// The pairs held, names taken as character sequences.
    closed spec fn view(&self) -> Map<usize, (Seq<char>, usize)> {
        Map::new(
            |k: usize| self.hash@.contains_key(k),
            |k: usize| (self.hash@[k].0@, self.hash@[k].1),
        )
    }
}

impl CustomHashMap {
    /// The reverse index holds exactly one entry per pair, so that the map stays one-to-one.
    pub closed spec fn wf(&self) -> bool {
        let m = self@;
        let r = self.hash_rev@;
        &&& one_to_one(m)
        &&& forall|j: int| 0 <= j < r.len() ==> #[trigger] rev_entry_ok(m, r[j])
        &&& forall|k: usize| #[trigger]
            m.contains_key(k) ==> exists|j: int| 0 <= j < r.len() && r[j].1 == k
        &&& forall|j1: int, j2: int|
            0 <= j1 < r.len() && 0 <= j2 < r.len() && #[trigger] r[j1].1 == #[trigger] r[j2].1
                ==> j1 == j2
    }

    /// The map is one-to-one: no two slots are paired with the same (file name, page id).
    pub proof fn lemma_one_to_one(&self)
        requires
            self.wf(),
        ensures
            one_to_one(self@),
    {
    }

    /// An empty map.
    pub fn new() -> (res: CustomHashMap)
        ensures
            res.wf(),
            res@.is_empty(),
    {
        let res = CustomHashMap { hash: HashMap::new(), hash_rev: Vec::new() };
        proof {
            assert(res@ =~= Map::<usize, (Seq<char>, usize)>::empty());
        }
        res
    }

    /// The (file name, page id) paired with slot `idx`, if any.
    pub fn find_page(&self, idx: usize) -> (res: Option<&(String, usize)>)
        ensures
            match res {
                Some(v) => self@.contains_key(idx) && self@[idx] == (v.0@, v.1),
                None => !self@.contains_key(idx),
            },
    {
        self.hash.get(&idx)
    }

    /// The position of the reverse entry whose key is (`name`, `page_id`), if any.
    fn rev_position(&self, name: &String, page_id: usize) -> (res: Option<usize>)
        ensures
            match res {
                Some(j) => j < self.hash_rev@.len() && self.hash_rev@[j as int].0.0@ == name@
                    && self.hash_rev@[j as int].0.1 == page_id,
                None => forall|i: int|
                    0 <= i < self.hash_rev@.len() ==> !(#[trigger] self.hash_rev@[i].0.0@ == name@
                        && self.hash_rev@[i].0.1 == page_id),
            },
    {
        let mut j: usize = 0;
        while j < self.hash_rev.len()
            invariant
                j <= self.hash_rev@.len(),
                forall|i: int|
                    0 <= i < j ==> !(#[trigger] self.hash_rev@[i].0.0@ == name@
                        && self.hash_rev@[i].0.1 == page_id),
            decreases self.hash_rev@.len() - j,
        {
            if self.hash_rev[j].0.1 == page_id && self.hash_rev[j].0.0 == *name {
                return Some(j);
            }
            j = j + 1;
        }
        None
    }

    proof fn lemma_no_rev_entry(&self, name: Seq<char>, page_id: usize)
        requires
            self.wf(),
            forall|i: int|
                0 <= i < self.hash_rev@.len() ==> !(#[trigger] self.hash_rev@[i].0.0@ == name
                    && self.hash_rev@[i].0.1 == page_id),
        ensures
            forall|k: usize| #[trigger] self@.contains_key(k) ==> self@[k] != (name, page_id),
    {
        assert forall|k: usize| #[trigger] self@.contains_key(k) implies self@[k] != (
            name,
            page_id,
        ) by {
            let i = choose|i: int| 0 <= i < self.hash_rev@.len() && self.hash_rev@[i].1 == k;
            assert(rev_entry_ok(self@, self.hash_rev@[i]));
        }
    }

    /// The slot paired with (`fname`, `page_id`), if any.
    pub fn find_idx(&self, fname: &str, page_id: usize) -> (res: Option<&usize>)
        requires
            self.wf(),
        ensures
            match res {
                Some(i) => self@.contains_key(*i) && self@[*i] == (fname@, page_id),
                None => forall|k: usize| #[trigger]
                    self@.contains_key(k) ==> self@[k] != (fname@, page_id),
            },
    {
        let name = fname.to_string();
        match self.rev_position(&name, page_id) {
            Some(j) => {
                proof {
                    assert(rev_entry_ok(self@, self.hash_rev@[j as int]));
                }
                Some(&self.hash_rev[j].1)
            },
            None => {
                proof {
                    self.lemma_no_rev_entry(fname@, page_id);
                }
                None
            },
        }
    }

    /// The reverse entries without the one (if any) for slot `idx`, given the map `m0`
    /// that they index.
    proof fn lemma_rev_without(
        m0: Map<usize, (Seq<char>, usize)>,
        r0: Seq<((String, usize), usize)>,
        r1: Seq<((String, usize), usize)>,
        idx: usize,
        j0: int,
    )
        requires
            forall|j: int| 0 <= j < r0.len() ==> #[trigger] rev_entry_ok(m0, r0[j]),
            forall|k: usize| #[trigger]
                m0.contains_key(k) ==> exists|j: int| 0 <= j < r0.len() && r0[j].1 == k,
            forall|j1: int, j2: int|
                0 <= j1 < r0.len() && 0 <= j2 < r0.len() && #[trigger] r0[j1].1 == #[trigger] r0[j2].1
                    ==> j1 == j2,
            m0.contains_key(idx) ==> 0 <= j0 < r0.len() && r0[j0].1 == idx && r1 == r0.remove(j0),
            !m0.contains_key(idx) ==> r1 == r0,
        ensures
            forall|j: int| 0 <= j < r1.len() ==> #[trigger] r1[j].1 != idx && rev_entry_ok(m0, r1[j]),
            forall|k: usize|
                #[trigger] m0.contains_key(k) && k != idx ==> exists|j: int| 0 <= j < r1.len() && r1[j].1 == k,
            forall|j1: int, j2: int|
                0 <= j1 < r1.len() && 0 <= j2 < r1.len() && #[trigger] r1[j1].1 == #[trigger] r1[j2].1
                    ==> j1 == j2,
    {
        if m0.contains_key(idx) {
            assert forall|j: int| 0 <= j < r1.len() implies #[trigger] r1[j].1 != idx && rev_entry_ok(
                m0,
                r1[j],
            ) by {
                let jj = if j < j0 { j } else { j + 1 };
                assert(r1[j] == r0[jj]);
                assert(rev_entry_ok(m0, r0[jj]));
                assert(r0[jj].1 == r0[j0].1 ==> jj == j0);
            }
            assert forall|k: usize| #[trigger] m0.contains_key(k) && k != idx implies exists|j: int|
                0 <= j < r1.len() && r1[j].1 == k by {
                let jj = choose|j: int| 0 <= j < r0.len() && r0[j].1 == k;
                if jj < j0 {
                    assert(r1[jj].1 == k);
                } else {
                    assert(jj != j0);
                    assert(r1[jj - 1].1 == k);
                }
            }
            assert forall|j1: int, j2: int|
                0 <= j1 < r1.len() && 0 <= j2 < r1.len() && #[trigger] r1[j1].1 == #[trigger] r1[j2].1
                    implies j1 == j2 by {
                let a = if j1 < j0 { j1 } else { j1 + 1 };
                let b = if j2 < j0 { j2 } else { j2 + 1 };
                assert(r1[j1] == r0[a] && r1[j2] == r0[b]);
            }
        } else {
            assert forall|j: int| 0 <= j < r1.len() implies #[trigger] r1[j].1 != idx && rev_entry_ok(
                m0,
                r1[j],
            ) by {
                assert(rev_entry_ok(m0, r0[j]));
            }
        }
    }

    /// Pairs slot `idx` with (`fname`, `page_id`): the pair that held `idx` and the
    /// pair that held (`fname`, `page_id`) go first.
    pub fn update(&mut self, idx: usize, fname: &str, page_id: usize)
        requires
            old(self).wf(),
        ensures
            final(self).wf(),
            final(self)@ == bimap_insert(old(self)@, idx, (fname@, page_id)),
    {
        let ghost m0 = self@;
        let ghost r0 = self.hash_rev@;
        let ghost target = bimap_insert(m0, idx, (fname@, page_id));
        proof {
            lemma_one_to_one_insert(m0, idx, (fname@, page_id));
        }
        let name = fname.to_string();
        let prev = self.hash.insert(idx, (name.clone(), page_id));
        let ghost m1 = self@;
        proof {
            assert(m1 =~= m0.insert(idx, (fname@, page_id)));
        }
        // The reverse entry of the pair that held `idx` goes.
        let ghost mut j0: int = 0;
        match prev {
            Some(old_pair) => {
                let pos = self.rev_position(&old_pair.0, old_pair.1);
                proof {
                    assert(m0.contains_key(idx));
                    let i = choose|i: int| 0 <= i < r0.len() && r0[i].1 == idx;
                    assert(rev_entry_ok(m0, r0[i]));
                    assert(r0[i].0.0@ == old_pair.0@ && r0[i].0.1 == old_pair.1);
                    assert(r0 == self.hash_rev@);
                    j0 = pos.unwrap() as int;
                    assert(rev_entry_ok(m0, r0[j0]));
                    assert(m0[r0[j0].1] == m0[idx]);
                }
                match pos {
                    Some(j) => {
                        self.hash_rev.remove(j);
                    },
                    None => {},
                }
            },
            None => {},
        }
        let ghost r1 = self.hash_rev@;
        proof {
            Self::lemma_rev_without(m0, r0, r1, idx, j0);
        }
        // The pair that held (fname, page_id) goes, and its reverse entry now names idx.
        let pos2 = self.rev_position(&name, page_id);
        match pos2 {
            Some(j1) => {
                let i = self.hash_rev[j1].1;
                proof {
                    assert(rev_entry_ok(m0, r1[j1 as int]));
                }
                self.hash_rev.set(j1, ((name, page_id), idx));
                self.hash.remove(&i);
                proof {
                    let r2 = self.hash_rev@;
                    assert(self@ =~= target);
                    assert forall|j: int| 0 <= j < r2.len() implies #[trigger] rev_entry_ok(target, r2[j]) by {
                        if j != j1 {
                            assert(rev_entry_ok(m0, r1[j]));
                            assert(r1[j].1 != i);
                        }
                    }
                    assert forall|k: usize| #[trigger] target.contains_key(k) implies exists|j: int|
                        0 <= j < r2.len() && r2[j].1 == k by {
                        if k == idx {
                            assert(r2[j1 as int].1 == k);
                        } else {
                            assert(m0.contains_key(k) && k != idx);
                            let jj = choose|j: int| 0 <= j < r1.len() && r1[j].1 == k;
                            assert(jj != j1);
                            assert(r2[jj].1 == k);
                        }
                    }
                    assert forall|a: int, b: int|
                        0 <= a < r2.len() && 0 <= b < r2.len() && #[trigger] r2[a].1 == #[trigger] r2[b].1
                            implies a == b by {
                        if a != j1 && b != j1 {
                            assert(r1[a].1 == r1[b].1);
                        } else if a != j1 {
                            assert(r1[a].1 != idx);
                        } else if b != j1 {
                            assert(r1[b].1 != idx);
                        }
                    }
                }
            },
            None => {
                self.hash_rev.push(((name, page_id), idx));
                proof {
                    let r2 = self.hash_rev@;
                    assert forall|k: usize| #[trigger] m0.contains_key(k) && k != idx implies m0[k] != (
                        fname@,
                        page_id,
                    ) by {
                        let jj = choose|j: int| 0 <= j < r1.len() && r1[j].1 == k;
                        assert(rev_entry_ok(m0, r1[jj]));
                    }
                    assert(self@ =~= target);
                    assert forall|j: int| 0 <= j < r2.len() implies #[trigger] rev_entry_ok(target, r2[j]) by {
                        if j < r1.len() {
                            assert(rev_entry_ok(m0, r1[j]));
                        }
                    }
                    assert forall|k: usize| #[trigger] target.contains_key(k) implies exists|j: int|
                        0 <= j < r2.len() && r2[j].1 == k by {
                        if k == idx {
                            assert(r2[r1.len() as int].1 == k);
                        } else {
                            assert(m0.contains_key(k) && k != idx);
                            let jj = choose|j: int| 0 <= j < r1.len() && r1[j].1 == k;
                            assert(r2[jj].1 == k);
                        }
                    }
                    assert forall|a: int, b: int|
                        0 <= a < r2.len() && 0 <= b < r2.len() && #[trigger] r2[a].1 == #[trigger] r2[b].1
                            implies a == b by {
                        if a < r1.len() && b < r1.len() {
                            assert(r1[a].1 == r1[b].1);
                        } else if a < r1.len() {
                            assert(r1[a].1 != idx);
                        } else if b < r1.len() {
                            assert(r1[b].1 != idx);
                        }
                    }
                }
            },
        }
    }

    /// Drops the pair of slot `idx`, which must be held.
    pub fn erase(&mut self, idx: usize)
        requires
            old(self).wf(),
            old(self)@.contains_key(idx),
        ensures
            final(self).wf(),
            final(self)@ == old(self)@.remove(idx),
    {
        let ghost m0 = self@;
        let ghost r0 = self.hash_rev@;
        let (fname, page_id) = self.hash.remove(&idx).unwrap();
        let pos = self.rev_position(&fname, page_id);
        proof {
            assert(self@ =~= m0.remove(idx));
            let i = choose|i: int| 0 <= i < r0.len() && r0[i].1 == idx;
            assert(rev_entry_ok(m0, r0[i]));
            assert(r0[i].0.0@ == fname@ && r0[i].0.1 == page_id);
            assert(r0 == self.hash_rev@);
            let j0 = pos.unwrap() as int;
            assert(rev_entry_ok(m0, r0[j0]));
            assert(m0[r0[j0].1] == m0[idx]);
            Self::lemma_rev_without(m0, r0, r0.remove(j0), idx, j0);
            lemma_one_to_one_remove(m0, idx);
        }
        self.hash_rev.remove(pos.unwrap());
        proof {
            let r1 = self.hash_rev@;
            let m1 = self@;
            assert forall|j: int| 0 <= j < r1.len() implies #[trigger] rev_entry_ok(m1, r1[j]) by {
                assert(rev_entry_ok(m0, r1[j]));
            }
        }
    }
}

} // verus!
