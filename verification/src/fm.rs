use vstd::prelude::*;
use crate::file_ids::{entries_view, file_id_entries, lemma_render_then_parse, render, valid_name};
use vstd::string::*;
use crate::constants::{PAGE_SIZE, PAGE_SIZE_BASE};
use bimap::BiHashMap;
use crate::bimap_spec::{
    bimap_insert, lemma_one_to_one_insert, lemma_one_to_one_remove, name_ids, name_map_get_by_left,
    name_map_entries, name_map_get_by_right, name_map_insert, name_map_new, name_map_remove_by_left, one_to_one,
};

verus! {

/// The registry after each entry, in turn, has been registered.
pub open spec fn insert_all(m: Map<Seq<char>, usize>, es: Seq<(Seq<char>, usize)>) -> Map<
    Seq<char>,
    usize,
>
    decreases es.len(),
{
    if es.len() == 0 {
        m
    } else {
        bimap_insert(insert_all(m, es.drop_last()), es.last().0, es.last().1)
    }
}

/// The next id after the entries have been registered: above every id seen.
pub open spec fn next_after(n: usize, es: Seq<(Seq<char>, usize)>) -> usize
    decreases es.len(),
{
    if es.len() == 0 {
        n
    } else {
        let p = next_after(n, es.drop_last());
        if p <= es.last().1 {
            (es.last().1 + 1) as usize
        } else {
            p
        }
    }
}

/// Registering a new file under an id that no file holds keeps every other file's id.
pub proof fn lemma_create_keeps_others(files: Map<Seq<char>, usize>, name: Seq<char>, id: usize)
    requires
        forall|k: Seq<char>| #[trigger] files.contains_key(k) ==> files[k] < id,
    ensures
        bimap_insert(files, name, id) == files.insert(name, id),
{
    assert(bimap_insert(files, name, id) =~= files.insert(name, id));
}

proof fn lemma_insert_all_distinct(files: Map<Seq<char>, usize>, es: Seq<(Seq<char>, usize)>)
    requires
        one_to_one(files),
        forall|j: int|
            0 <= j < es.len() ==> files.contains_key(#[trigger] es[j].0) && files[es[j].0]
                == es[j].1,
        forall|i: int, j: int|
            0 <= i < es.len() && 0 <= j < es.len() && #[trigger] es[i].0 == #[trigger] es[j].0 ==> i
                == j,
    ensures
        insert_all(Map::empty(), es) == Map::new(
            |k: Seq<char>| exists|j: int| 0 <= j < es.len() && es[j].0 == k,
            |k: Seq<char>| files[k],
        ),
    decreases es.len(),
{
    let target = Map::new(
        |k: Seq<char>| exists|j: int| 0 <= j < es.len() && es[j].0 == k,
        |k: Seq<char>| files[k],
    );
    if es.len() == 0 {
        assert(insert_all(Map::empty(), es) =~= target);
    } else {
        let pre = es.drop_last();
        let e = es.last();
        assert forall|j: int| 0 <= j < pre.len() implies files.contains_key(#[trigger] pre[j].0)
            && files[pre[j].0] == pre[j].1 by {
            assert(pre[j] == es[j]);
        }
        assert forall|i: int, j: int|
            0 <= i < pre.len() && 0 <= j < pre.len() && #[trigger] pre[i].0 == #[trigger] pre[j].0
                implies i == j by {
            assert(pre[i] == es[i] && pre[j] == es[j]);
        }
        lemma_insert_all_distinct(files, pre);
        let m = insert_all(Map::empty(), pre);
        let last = es.len() - 1;
        assert(es[last] == e);
        assert(files.contains_key(e.0) && files[e.0] == e.1);
        assert forall|k: Seq<char>| #[trigger] target.contains_key(k) == bimap_insert(m, e.0, e.1).contains_key(k) by {
            if m.contains_key(k) {
                let j = choose|j: int| 0 <= j < pre.len() && pre[j].0 == k;
                assert(pre[j] == es[j]);
                assert(k != e.0);
                assert(files[k] != files[e.0]);
            }
            if target.contains_key(k) && k != e.0 {
                let j = choose|j: int| 0 <= j < es.len() && es[j].0 == k;
                assert(j != last);
                assert(pre[j] == es[j]);
            }
        }
        assert(insert_all(Map::empty(), es) =~= target);
    }
}

/// Reloading a saved file list restores the registry.  When `es` lists each
/// registered (name, id) once, in any order (as `FileManager::file_entries`
/// gives them), and every name is non-empty and free of white space, the text
/// written for `es` reads back as `es`, and registering those entries into an
/// empty registry (what `use_db` does on a new `FileManager`) gives back the
/// same registry.
pub proof fn lemma_saved_list_reloads(files: Map<Seq<char>, usize>, es: Seq<(Seq<char>, usize)>)
    requires
        one_to_one(files),
        forall|j: int|
            0 <= j < es.len() ==> files.contains_key(#[trigger] es[j].0) && files[es[j].0]
                == es[j].1,
        forall|k: Seq<char>| #[trigger]
            files.contains_key(k) ==> exists|j: int| 0 <= j < es.len() && es[j].0 == k,
        forall|i: int, j: int|
            0 <= i < es.len() && 0 <= j < es.len() && #[trigger] es[i].0 == #[trigger] es[j].0 ==> i
                == j,
        forall|j: int| 0 <= j < es.len() ==> valid_name(#[trigger] es[j].0),
    ensures
        file_id_entries(render(es)) == Some(es),
        insert_all(Map::empty(), es) == files,
{
    lemma_render_then_parse(es);
    lemma_insert_all_distinct(files, es);
    let target = Map::new(
        |k: Seq<char>| exists|j: int| 0 <= j < es.len() && es[j].0 == k,
        |k: Seq<char>| files[k],
    );
    assert forall|k: Seq<char>| #[trigger] target.contains_key(k) == files.contains_key(k) by {
        if target.contains_key(k) {
            let j = choose|j: int| 0 <= j < es.len() && es[j].0 == k;
            assert(files.contains_key(es[j].0));
        }
    }
    assert(target =~= files);
}


/// The next id after registering entries is the least value that is at least
/// the old next id and above every registered id: it is at least `n`, above each
/// entry's id, and equal to `n` or to some entry's id plus one.
pub proof fn lemma_next_after(n: usize, es: Seq<(Seq<char>, usize)>)
    requires
        forall|j: int| 0 <= j < es.len() ==> #[trigger] es[j].1 < usize::MAX,
    ensures
        next_after(n, es) >= n,
        forall|j: int| 0 <= j < es.len() ==> #[trigger] es[j].1 < next_after(n, es),
        next_after(n, es) == n || exists|j: int|
            0 <= j < es.len() && next_after(n, es) == es[j].1 + 1,
    decreases es.len(),
{
    if es.len() > 0 {
        let pre = es.drop_last();
        assert forall|j: int| 0 <= j < pre.len() implies #[trigger] pre[j].1 < usize::MAX by {
            assert(pre[j] == es[j]);
        }
        lemma_next_after(n, pre);
        let last = es.len() - 1;
        assert(es[last] == es.last());
        assert forall|j: int| 0 <= j < es.len() implies #[trigger] es[j].1 < next_after(n, es) by {
            if j < last {
                assert(pre[j] == es[j]);
            }
        }
        let p = next_after(n, pre);
        if p > es.last().1 && p != n {
            let j = choose|j: int| 0 <= j < pre.len() && p == pre[j].1 + 1;
            assert(pre[j] == es[j]);
        }
    }
}


/// Registering entries in turn: an entry whose name and id no later entry
/// repeats ends up registered as it is, and every name registered afterwards was
/// registered before or is an entry's name.
pub proof fn lemma_insert_all(m: Map<Seq<char>, usize>, es: Seq<(Seq<char>, usize)>)
    ensures
        forall|j: int|
            0 <= j < es.len() && (forall|k: int|
                j < k < es.len() ==> es[k].0 != es[j].0 && es[k].1 != es[j].1) ==> insert_all(
                m,
                es,
            ).contains_key(#[trigger] es[j].0) && insert_all(m, es)[es[j].0] == es[j].1,
        forall|key: Seq<char>| #[trigger]
            insert_all(m, es).contains_key(key) ==> m.contains_key(key) || exists|j: int|
                0 <= j < es.len() && es[j].0 == key,
    decreases es.len(),
{
    if es.len() > 0 {
        let pre = es.drop_last();
        lemma_insert_all(m, pre);
        let last = es.len() - 1;
        let r0 = insert_all(m, pre);
        assert(es[last] == es.last());
        assert forall|j: int|
            0 <= j < es.len() && (forall|k: int|
                j < k < es.len() ==> es[k].0 != es[j].0 && es[k].1 != es[j].1) implies insert_all(
            m,
            es,
        ).contains_key(#[trigger] es[j].0) && insert_all(m, es)[es[j].0] == es[j].1 by {
            if j < last {
                assert(pre[j] == es[j]);
                assert forall|k: int| j < k < pre.len() implies pre[k].0 != pre[j].0 && pre[k].1
                    != pre[j].1 by {
                    assert(pre[k] == es[k]);
                }
                assert(es[last].0 != es[j].0 && es[last].1 != es[j].1);
            }
        }
        assert forall|key: Seq<char>| #[trigger] insert_all(m, es).contains_key(key) implies m.contains_key(
            key,
        ) || exists|j: int| 0 <= j < es.len() && es[j].0 == key by {
            if key != es.last().0 {
                assert(r0.contains_key(key));
                if !m.contains_key(key) {
                    let j = choose|j: int| 0 <= j < pre.len() && pre[j].0 == key;
                    assert(pre[j] == es[j]);
                }
            }
        }
    }
}

/// The registry of the files of the database in use: each file name is paired
/// with one file id, and ids are handed out in increasing order.
pub struct FileManager {
    current_db: Option<String>,
    fname_file_id_map: BiHashMap<String, usize>,
    next_id: usize,
}

impl FileManager {
    /// The database in use, if any.
    pub closed spec fn current_db(&self) -> Option<Seq<char>> {
        match self.current_db {
            Some(s) => Some(s@),
            None => None,
        }
    }

    /// The registered files: name to id.
    pub closed spec fn files(&self) -> Map<Seq<char>, usize> {
        name_ids(self.fname_file_id_map)
    }

    /// The id that the next created file receives.
    pub closed spec fn spec_next_id(&self) -> usize {
        self.next_id
    }

    /// Each id belongs to one file, and every id is below the next one handed out.
    pub open spec fn wf(&self) -> bool {
        &&& one_to_one(self.files())
        &&& forall|k: Seq<char>| #[trigger]
            self.files().contains_key(k) ==> self.files()[k] < self.spec_next_id()
    }

    /// An empty registry with no database in use.
    pub fn new() -> (res: FileManager)
        ensures
            res.wf(),
            res.current_db() == None::<Seq<char>>,
            res.files().is_empty(),
            res.spec_next_id() == 0,
    {
        FileManager { current_db: None, fname_file_id_map: name_map_new(), next_id: 0 }
    }

    /// The id of file `fname`, which must be registered.
    pub fn get_file_id(&self, fname: String) -> (res: usize)
        requires
            self.files().contains_key(fname@),
        ensures
            res == self.files()[fname@],
    {
        match name_map_get_by_left(&self.fname_file_id_map, fname.as_str()) {
            Some(id) => id,
            None => 0,
        }
    }

    /// The id of file `fname`, if it is registered.
    pub fn find_file_id(&self, fname: &str) -> (res: Option<usize>)
        ensures
            match res {
                Some(id) => self.files().contains_key(fname@) && self.files()[fname@] == id,
                None => !self.files().contains_key(fname@),
            },
    {
        name_map_get_by_left(&self.fname_file_id_map, fname)
    }

    /// Registers file `fname` of the database in use under the next id, which it
    /// returns.  A file of that name registered before loses its old id.
    pub fn create_file(&mut self, fname: &str) -> (res: usize)
        requires
            old(self).wf(),
            old(self).current_db() is Some,
            old(self).spec_next_id() < usize::MAX,
        ensures
            final(self).wf(),
            res == old(self).spec_next_id(),
            final(self).spec_next_id() == old(self).spec_next_id() + 1,
            final(self).files() == bimap_insert(old(self).files(), fname@, res),
            final(self).current_db() == old(self).current_db(),
    {
        let ghost old_files = self.files();
        name_map_insert(&mut self.fname_file_id_map, fname.to_string(), self.next_id);
        proof {
            lemma_one_to_one_insert(old_files, fname@, self.next_id);
        }
        self.next_id = self.next_id + 1;
        self.next_id - 1
    }

    /// Unregisters file `fname`; fails with "file not exist" when it is not registered.
    pub fn remove_file(&mut self, fname: &str) -> (res: Result<(), &'static str>)
        requires
            old(self).wf(),
        ensures
            final(self).wf(),
            final(self).files() == old(self).files().remove(fname@),
            final(self).spec_next_id() == old(self).spec_next_id(),
            final(self).current_db() == old(self).current_db(),
            res is Ok <==> old(self).files().contains_key(fname@),
            match res {
                Ok(_) => true,
                Err(e) => e@ == "file not exist"@,
            },
    {
        let ghost old_files = self.files();
        let removed = name_map_remove_by_left(&mut self.fname_file_id_map, fname);
        proof {
            lemma_one_to_one_remove(old_files, fname@);
        }
        match removed {
            Some(_) => Ok(()),
            None => Err("file not exist"),
        }
    }

    /// The name of the file with id `file_id`, if one is registered.
    pub fn file_name(&self, file_id: usize) -> (res: Option<&String>)
        ensures
            match res {
                Some(name) => self.files().contains_key(name@) && self.files()[name@] == file_id,
                None => forall|k: Seq<char>| #[trigger]
                    self.files().contains_key(k) ==> self.files()[k] != file_id,
            },
    {
        name_map_get_by_right(&self.fname_file_id_map, file_id)
    }
    /// Makes `db_name` the database in use and registers its files, listed in
    /// `entries` (as read by `parse_file_ids`), in order.
    pub fn use_db(&mut self, db_name: &str, entries: &Vec<(String, usize)>)
        requires
            old(self).wf(),
            forall|j: int| 0 <= j < entries@.len() ==> #[trigger] entries@[j].1 < usize::MAX,
        ensures
            final(self).wf(),
            final(self).current_db() == Some(db_name@),
            final(self).files() == insert_all(old(self).files(), entries_view(entries@)),
            final(self).spec_next_id() == next_after(old(self).spec_next_id(), entries_view(entries@)),
            final(self).spec_next_id() >= old(self).spec_next_id(),
            forall|j: int|
                0 <= j < entries@.len() && (forall|k: int|
                    j < k < entries@.len() ==> entries@[k].0@ != entries@[j].0@ && entries@[k].1
                        != entries@[j].1) ==> final(self).files().contains_key(
                    #[trigger] entries@[j].0@,
                ) && final(self).files()[entries@[j].0@] == entries@[j].1,
            forall|key: Seq<char>| #[trigger]
                final(self).files().contains_key(key) ==> old(self).files().contains_key(key)
                    || exists|j: int| 0 <= j < entries@.len() && entries@[j].0@ == key,
            forall|j: int|
                0 <= j < entries@.len() ==> #[trigger] entries@[j].1 < final(self).spec_next_id(),
            final(self).spec_next_id() == old(self).spec_next_id() || exists|j: int|
                0 <= j < entries@.len() && final(self).spec_next_id() == entries@[j].1 + 1,
    {
        self.current_db = Some(db_name.to_string());
        let ghost es = entries_view(entries@);
        let ghost files0 = self.files();
        let ghost next0 = self.next_id;
        let mut j: usize = 0;
        while j < entries.len()
            invariant
                self.wf(),
                self.current_db() == Some(db_name@),
                es == entries_view(entries@),
                forall|q: int| 0 <= q < entries@.len() ==> #[trigger] entries@[q].1 < usize::MAX,
                j <= entries@.len(),
                self.files() == insert_all(files0, es.subrange(0, j as int)),
                self.next_id == next_after(next0, es.subrange(0, j as int)),
            decreases entries@.len() - j,
        {
            let key = &entries[j].0;
            let val = entries[j].1;
            assert(es.subrange(0, j + 1).drop_last() =~= es.subrange(0, j as int));
            assert(es.subrange(0, j + 1).last() == (key@, val));
            if self.next_id <= val {
                self.next_id = val + 1;
            }
            let ghost pre = self.files();
            name_map_insert(&mut self.fname_file_id_map, key.clone(), val);
            proof {
                lemma_one_to_one_insert(pre, key@, val);
            }
            j = j + 1;
        }
        assert(es.subrange(0, j as int) =~= es);
        proof {
            assert forall|q: int| 0 <= q < es.len() implies #[trigger] es[q].1 < usize::MAX by {
                assert(es[q].1 == entries@[q].1);
            }
            lemma_next_after(next0, es);
            lemma_insert_all(files0, es);
            assert forall|q: int|
                0 <= q < entries@.len() && (forall|k: int|
                    q < k < entries@.len() ==> entries@[k].0@ != entries@[q].0@ && entries@[k].1
                        != entries@[q].1) implies self.files().contains_key(
                #[trigger] entries@[q].0@,
            ) && self.files()[entries@[q].0@] == entries@[q].1 by {
                assert(es[q] == (entries@[q].0@, entries@[q].1));
                assert forall|k: int| q < k < es.len() implies es[k].0 != es[q].0 && es[k].1
                    != es[q].1 by {
                    assert(es[k] == (entries@[k].0@, entries@[k].1));
                }
            }
            assert forall|key: Seq<char>| #[trigger] self.files().contains_key(key) implies files0.contains_key(
                key,
            ) || exists|q: int| 0 <= q < entries@.len() && entries@[q].0@ == key by {
                if !files0.contains_key(key) {
                    let q = choose|q: int| 0 <= q < es.len() && es[q].0 == key;
                    assert(es[q].0 == entries@[q].0@);
                }
            }
            assert forall|q: int| 0 <= q < entries@.len() implies #[trigger] entries@[q].1
                < self.next_id by {
                assert(es[q].1 == entries@[q].1);
            }
            if self.next_id != next0 {
                let q = choose|q: int| 0 <= q < es.len() && self.next_id == es[q].1 + 1;
                assert(es[q].1 == entries@[q].1);
            }
        }
    }

    /// The path of file `fname` of the database in use: "db/fname".
    pub fn file_path(&self, fname: &str) -> (res: Option<String>)
        ensures
            match res {
                Some(p) => self.current_db() is Some && p@ == self.current_db().unwrap() + "/"@
                    + fname@,
                None => self.current_db() is None,
            },
    {
        match &self.current_db {
            Some(db) => {
                let mut path = db.clone();
                path.append("/");
                path.append(fname);
                Some(path)
            },
            None => None,
        }
    }
    /// Every registered (name, id), once each, in no fixed order.
    pub fn file_entries(&self) -> (res: Vec<(String, usize)>)
        ensures
            forall|j: int|
                0 <= j < res@.len() ==> self.files().contains_key(#[trigger] res@[j].0@)
                    && self.files()[res@[j].0@] == res@[j].1,
            forall|k: Seq<char>| #[trigger]
                self.files().contains_key(k) ==> exists|j: int| 0 <= j < res@.len() && res@[j].0@ == k,
            forall|i: int, j: int|
                0 <= i < res@.len() && 0 <= j < res@.len() && #[trigger] res@[i].0@
                    == #[trigger] res@[j].0@ ==> i == j,
    {
        name_map_entries(&self.fname_file_id_map)
    }

    /// The byte offset of page `page_id` in a file: `page_id * PAGE_SIZE`, modulo 2^64
    /// (the page id is shifted left by `PAGE_SIZE_BASE` bits as a `u64`).
    pub fn page_offset(page_id: usize) -> (res: u64)
        ensures
            res as int == (page_id as int * PAGE_SIZE as int) % 0x1_0000_0000_0000_0000,
    {
        let x = page_id as u64;
        assert(((x << 13u64) as int) == (x as int * 8192) % 0x1_0000_0000_0000_0000) by (bit_vector);
        x << PAGE_SIZE_BASE
    }
    /// Whether a database is in use.
    pub fn has_db(&self) -> (res: bool)
        ensures
            res == self.current_db() is Some,
    {
        self.current_db.is_some()
    }

    /// The id that the next created file receives.
    pub fn next_id(&self) -> (res: usize)
        ensures
            res == self.spec_next_id(),
    {
        self.next_id
    }
}

} // verus!
