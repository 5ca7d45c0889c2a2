use vstd::prelude::*;
use crate::bm::{BufManager, lemma_slot_of_overwrite, overwrite, slot_bytes};
use crate::bimap_spec::{PagePos, bimap_insert};
use crate::bm::move_to_front;
use crate::page::{FileInfoPage, info_bytes};
use crate::constants::{BUF_PAGE_CAPACITY, PAGE_SIZE};

verus! {

/// The disk writes, in order, as (page, bytes).
pub open spec fn writes_view(v: Seq<(PagePos, Vec<u8>)>) -> Seq<(PagePos, Seq<u8>)> {
    Seq::new(v.len(), |j: int| (v[j].0, v[j].1@))
}

/// The write-back of slot `idx` when it is dirty: the page it holds, with its bytes.
pub open spec fn eviction(bm: BufManager, idx: usize) -> Seq<(PagePos, Seq<u8>)> {
    if bm.dirty_view()[idx as int] {
        seq![(bm.pages()[idx], slot_bytes(bm.buffer_view(), idx as int))]
    } else {
        Seq::empty()
    }
}

/// A table file can be created when a database is in use, an id is left, and each
/// of the next two victims is clean or holds a page (the second one not page 0 of
/// the new file): the dirty victims' pages are written back first.
pub proof fn lemma_create_file_allowed(rm: RecordManager)
    requires
        rm.bm.file_manager().current_db() is Some,
        rm.bm.file_manager().spec_next_id() < usize::MAX,
        rm.bm.dirty_view()[rm.bm.order()[0] as int] ==> rm.bm.pages().contains_key(rm.bm.order()[0]),
        rm.bm.dirty_view()[rm.bm.order()[1] as int] ==> rm.bm.pages().contains_key(rm.bm.order()[1])
            && rm.bm.pages()[rm.bm.order()[1]] != (rm.bm.file_manager().spec_next_id(), 0usize),
    ensures
        rm.create_file_allowed(),
{
}

/// The writes that taking a slot asks for: a dirty slot's page, with its bytes,
/// whatever file the page belongs to; nothing for a clean slot.
pub proof fn lemma_eviction(bm: BufManager, idx: usize)
    ensures
        bm.dirty_view()[idx as int] ==> eviction(bm, idx).len() == 1 && eviction(bm, idx)[0] == (
            bm.pages()[idx],
            slot_bytes(bm.buffer_view(), idx as int),
        ),
        !bm.dirty_view()[idx as int] ==> eviction(bm, idx).len() == 0,
{
}

/// A record id: (page id, slot offset).
pub struct Rid(usize, usize);

/// A record.
pub struct Record {}

/// Table-level operations over the buffer and the file registry.
pub struct RecordManager {
    pub bm: BufManager,
}

impl RecordManager {
    /// A record manager over an empty buffer and an empty file registry.
    pub fn new() -> (res: RecordManager)
        ensures
            res.bm.wf(),
            res.bm.file_manager().wf(),
            res.bm.file_manager().current_db() == None::<Seq<char>>,
            res.bm.file_manager().files().is_empty(),
            res.bm.file_manager().spec_next_id() == 0,
            res.bm.pages().is_empty(),
            res.bm.dirty_view() == Seq::new(BUF_PAGE_CAPACITY as nat, |i: int| false),
            res.bm.buffer_view() == Seq::new((BUF_PAGE_CAPACITY * PAGE_SIZE) as nat, |i: int| 0u8),
            res.bm.order() == Seq::new(BUF_PAGE_CAPACITY as nat, |j: int| j as usize),
            res.bm.last_access() == None::<usize>,
    {
        RecordManager { bm: BufManager::new() }
    }

    /// Unregisters table file `fname` (see `FileManager::remove_file`).
    pub fn remove_file(&mut self, fname: &str) -> (res: Result<(), &'static str>)
        requires
            old(self).bm.file_manager().wf(),
        ensures
            final(self).bm.file_manager().wf(),
            final(self).bm.file_manager().files() == old(self).bm.file_manager().files().remove(
                fname@,
            ),
            final(self).bm.file_manager().spec_next_id() == old(self).bm.file_manager().spec_next_id(),
            final(self).bm.file_manager().current_db() == old(self).bm.file_manager().current_db(),
            final(self).bm.dirty_view() == old(self).bm.dirty_view(),
            final(self).bm.buffer_view() == old(self).bm.buffer_view(),
            final(self).bm.pages() == old(self).bm.pages(),
            final(self).bm.order() == old(self).bm.order(),
            final(self).bm.last_access() == old(self).bm.last_access(),
            old(self).bm.wf() ==> final(self).bm.wf(),
            res is Ok <==> old(self).bm.file_manager().files().contains_key(fname@),
            match res {
                Ok(_) => true,
                Err(e) => e@ == "file not exist"@,
            },
    {
        self.bm.file_manager_mut().remove_file(fname)
    }

    /// The id of table file `fname`, which must be registered.
    pub fn get_file_id(&self, fname: &str) -> (res: usize)
        requires
            self.bm.file_manager().files().contains_key(fname@),
        ensures
            res == self.bm.file_manager().files()[fname@],
    {
        self.bm.file_manager_ref().get_file_id(fname.to_string())
    }
    /// A table file can be created: a database is in use, an id is left, and the
    /// two slots that will be taken can be (each is clean, or holds a page to write
    /// back; the second still after the first has been given page 0 of the new file).
    pub open spec fn create_file_allowed(&self) -> bool {
        let bm = self.bm;
        let fm = bm.file_manager();
        let o = bm.order()[1];
        &&& fm.current_db() is Some
        &&& fm.spec_next_id() < usize::MAX
        &&& bm.evictable()
        &&& bm.dirty_view()[o as int] ==> bm.pages().contains_key(o) && bm.pages()[o] != (
            fm.spec_next_id(),
            0usize,
        )
    }

    /// Whether a table file can be created (see `create_file_allowed`).
    pub fn can_create_file(&self) -> (res: bool)
        requires
            self.bm.wf(),
        ensures
            res == self.create_file_allowed(),
            res == ({
                let bm = self.bm;
                let fm = bm.file_manager();
                let z = bm.order()[0];
                let o = bm.order()[1];
                &&& fm.current_db() is Some
                &&& fm.spec_next_id() < usize::MAX
                &&& bm.dirty_view()[z as int] ==> bm.pages().contains_key(z)
                &&& bm.dirty_view()[o as int] ==> bm.pages().contains_key(o) && bm.pages()[o] != (
                    fm.spec_next_id(),
                    0usize,
                )
            }),
    {
        proof {
            self.bm.lemma_wf();
        }
        let fm = self.bm.file_manager_ref();
        if !fm.has_db() || fm.next_id() == usize::MAX || !self.bm.can_evict() {
            return false;
        }
        let (_, o) = self.bm.next_victims();
        if self.bm.is_dirty(o) {
            match self.bm.page_of_slot(o) {
                Some(pos) => pos.0 != fm.next_id() || pos.1 != 0,
                None => false,
            }
        } else {
            true
        }
    }

    /// Creates table file `fname`: registers it under the next id, fills page 0
    /// with the bytes of `info` and page 1 with zeros through two buffer slots, and
    /// writes both back, freeing the slots.  Returns the id and the disk writes to
    /// perform, in order: the pages evicted from the two slots, then pages 0 and 1.
    pub fn create_file(&mut self, fname: &str, info: &FileInfoPage) -> (res: (
        usize,
        Vec<(PagePos, Vec<u8>)>,
    ))
        requires
            old(self).bm.wf(),
            old(self).bm.file_manager().wf(),
            old(self).create_file_allowed(),
        ensures
            final(self).bm.wf(),
            final(self).bm.file_manager().wf(),
            res.0 == old(self).bm.file_manager().spec_next_id(),
            final(self).bm.file_manager().files() == bimap_insert(
                old(self).bm.file_manager().files(),
                fname@,
                res.0,
            ),
            final(self).bm.file_manager().spec_next_id() == res.0 + 1,
            final(self).bm.file_manager().current_db() == old(self).bm.file_manager().current_db(),
            ({
                let b0 = old(self).bm;
                let z = b0.order()[0];
                let o = b0.order()[1];
                let id = res.0;
                let zeros = Seq::new(PAGE_SIZE as nat, |i: int| 0u8);
                &&& writes_view(res.1@) == eviction(b0, z) + eviction(b0, o) + seq![
                    ((id, 0usize), overwrite(slot_bytes(b0.buffer_view(), z as int), 0, info_bytes(*info))),
                    ((id, 1usize), zeros),
                ]
                &&& final(self).bm.buffer_view() == overwrite(
                    overwrite(b0.buffer_view(), z * PAGE_SIZE, info_bytes(*info)),
                    o * PAGE_SIZE,
                    zeros,
                )
                &&& final(self).bm.dirty_view() == b0.dirty_view().update(z as int, false).update(
                    o as int,
                    false,
                )
                &&& final(self).bm.pages() == bimap_insert(
                    bimap_insert(b0.pages(), z, (id, 0usize)),
                    o,
                    (id, 1usize),
                ).remove(z).remove(o)
                &&& final(self).bm.order() == move_to_front(
                    move_to_front(b0.order().drop_first().push(z).drop_first().push(o), z),
                    o,
                )
                &&& final(self).bm.last_access() == None::<usize>
            }),
            ({
                let b0 = old(self).bm;
                let z = b0.order()[0];
                let o = b0.order()[1];
                let dz: int = if b0.dirty_view()[z as int] { 1 } else { 0 };
                let dob: int = if b0.dirty_view()[o as int] { 1 } else { 0 };
                let w = res.1@;
                &&& w.len() == 2 + dz + dob
                &&& b0.dirty_view()[z as int] ==> w[0].0 == b0.pages()[z] && w[0].1@ == slot_bytes(
                    b0.buffer_view(),
                    z as int,
                )
                &&& b0.dirty_view()[o as int] ==> w[dz].0 == b0.pages()[o] && w[dz].1@ == slot_bytes(
                    b0.buffer_view(),
                    o as int,
                )
                &&& w[dz + dob].0 == (res.0, 0usize)
                &&& w[dz + dob].1@ == overwrite(
                    slot_bytes(b0.buffer_view(), z as int),
                    0,
                    info_bytes(*info),
                )
                &&& w[dz + dob + 1].0 == (res.0, 1usize)
                &&& w[dz + dob + 1].1@ == Seq::new(PAGE_SIZE as nat, |i: int| 0u8)
            }),
    {
        let ghost b0 = self.bm;
        proof {
            self.bm.lemma_wf();
            assert(b0.order()[0] != b0.order()[1]);
        }
        let id = self.bm.file_manager_mut().create_file(fname);
        let mut writes: Vec<(PagePos, Vec<u8>)> = Vec::new();
        // page 0: the information page
        let f0 = self.bm.alloc_page(id, 0, false);
        let z = f0.idx;
        match f0.evicted {
            Some(pos) => {
                let bytes = vstd::slice::slice_to_vec(self.bm.read(z, PAGE_SIZE));
                writes.push((pos, bytes));
            },
            None => {},
        }
        let info_data = info.to_bytes();
        self.bm.write(z, info_data.as_slice(), 0);
        let ghost b1 = self.bm;
        proof {
            lemma_slot_of_overwrite(b0.buffer_view(), z as int, info_bytes(*info), b0.order()[1] as int);
            assert(b1.order()[0] == b0.order()[1]);
        }
        // page 1: zeros
        let f1 = self.bm.alloc_page(id, 1, false);
        let o = f1.idx;
        match f1.evicted {
            Some(pos) => {
                let bytes = vstd::slice::slice_to_vec(self.bm.read(o, PAGE_SIZE));
                writes.push((pos, bytes));
            },
            None => {},
        }
        let mut zeros: Vec<u8> = Vec::new();
        let mut i: usize = 0;
        while i < PAGE_SIZE
            invariant
                i <= PAGE_SIZE,
                zeros@ == Seq::new(i as nat, |j: int| 0u8),
            decreases PAGE_SIZE - i,
        {
            zeros.push(0u8);
            i = i + 1;
        }
        self.bm.write(o, zeros.as_slice(), 0);
        let ghost b2 = self.bm;
        proof {
            lemma_slot_of_overwrite(b1.buffer_view(), o as int, zeros@, z as int);
            lemma_slot_of_overwrite(b1.buffer_view(), o as int, zeros@, o as int);
            lemma_slot_of_overwrite(b0.buffer_view(), z as int, info_bytes(*info), z as int);
            assert(overwrite(slot_bytes(b1.buffer_view(), o as int), 0, zeros@) =~= zeros@);
        }
        // write both back
        let w0 = self.bm.write_back(z);
        match w0 {
            Some(pos) => {
                let bytes = vstd::slice::slice_to_vec(self.bm.read(z, PAGE_SIZE));
                writes.push((pos, bytes));
            },
            None => {},
        }
        let w1 = self.bm.write_back(o);
        match w1 {
            Some(pos) => {
                let bytes = vstd::slice::slice_to_vec(self.bm.read(o, PAGE_SIZE));
                writes.push((pos, bytes));
            },
            None => {},
        }
        proof {
            assert(writes_view(writes@) =~= eviction(b0, z) + eviction(b0, o) + seq![
                ((id, 0usize), overwrite(slot_bytes(b0.buffer_view(), z as int), 0, info_bytes(*info))),
                ((id, 1usize), Seq::new(PAGE_SIZE as nat, |i: int| 0u8)),
            ]);
            let wv = writes_view(writes@);
            assert forall|j: int| 0 <= j < writes@.len() implies #[trigger] writes@[j].0 == wv[j].0
                && writes@[j].1@ == wv[j].1 by {}
        }
        (id, writes)
    }
}

} // verus!
