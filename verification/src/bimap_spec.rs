use vstd::prelude::*;
use bimap::BiHashMap;

verus! {

/// A page of a file: (file id, page id).
pub type PagePos = (usize, usize);

// ---------------------------------------------------------------------------
// The bimap crate's one-to-one map, as the library uses it.
// ---------------------------------------------------------------------------

#[verifier::external_type_specification]
#[verifier::external_body]
#[verifier::reject_recursive_types(L)]
#[verifier::reject_recursive_types(R)]
#[verifier::reject_recursive_types(LS)]
#[verifier::reject_recursive_types(RS)]
pub struct ExBiHashMap<L, R, LS, RS>(BiHashMap<L, R, LS, RS>);

/// The pairs left after `(l, r)` is put in: every pair with left value `l` or
/// right value `r` goes, then `(l, r)` comes in.
pub open spec fn bimap_insert<L, R>(m: Map<L, R>, l: L, r: R) -> Map<L, R> {
    Map::new(|k: L| k == l || (m.contains_key(k) && m[k] != r), |k: L| if k == l { r } else { m[k] })
}

/// No two left values are paired with the same right value.
pub open spec fn one_to_one<L, R>(m: Map<L, R>) -> bool {
    forall|a: L, b: L|
        #![trigger m[a], m[b]]
        m.contains_key(a) && m.contains_key(b) && m[a] == m[b] ==> a == b
}

pub proof fn lemma_one_to_one_insert<L, R>(m: Map<L, R>, l: L, r: R)
    requires
        one_to_one(m),
    ensures
        one_to_one(bimap_insert(m, l, r)),
        bimap_insert(m, l, r).contains_key(l),
        bimap_insert(m, l, r)[l] == r,
{
    let m2 = bimap_insert(m, l, r);
    assert forall|a: L, b: L|
        #![trigger m2[a], m2[b]]
        m2.contains_key(a) && m2.contains_key(b) && m2[a] == m2[b] implies a == b by {
        if a != l && b != l {
            assert(m[a] == m2[a] && m[b] == m2[b]);
        }
    }
}

pub proof fn lemma_one_to_one_remove<L, R>(m: Map<L, R>, l: L)
    requires
        one_to_one(m),
    ensures
        one_to_one(m.remove(l)),
{
    let m2 = m.remove(l);
    assert forall|a: L, b: L|
        #![trigger m2[a], m2[b]]
        m2.contains_key(a) && m2.contains_key(b) && m2[a] == m2[b] implies a == b by {
        assert(m[a] == m2[a] && m[b] == m2[b]);
    }
}

/// The pairs (buffer slot, (file id, page id)) that a slot map holds.
pub uninterp spec fn slot_pairs(m: BiHashMap<usize, PagePos>) -> Map<usize, PagePos>;

/// `BiHashMap::new`: the new map holds no pair.
#[verifier::external_body]
pub(crate) fn slot_map_new() -> (res: BiHashMap<usize, PagePos>)
    ensures
        slot_pairs(res).is_empty(),
{
    BiHashMap::new()
}

/// `BiHashMap::insert`: every pair with the same left or the same right value
/// is dropped, then the pair is added.
#[verifier::external_body]
pub(crate) fn slot_map_insert(m: &mut BiHashMap<usize, PagePos>, l: usize, r: PagePos)
    ensures
        slot_pairs(*final(m)) == bimap_insert(slot_pairs(*old(m)), l, r),
{
    m.insert(l, r);
}

/// `BiHashMap::get_by_left`: the right value paired with `l`, if any.
#[verifier::external_body]
pub(crate) fn slot_map_get_by_left(m: &BiHashMap<usize, PagePos>, l: usize) -> (res: Option<
    PagePos,
>)
    ensures
        match res {
            Some(r) => slot_pairs(*m).contains_key(l) && slot_pairs(*m)[l] == r,
            None => !slot_pairs(*m).contains_key(l),
        },
{
    m.get_by_left(&l).copied()
}

/// `BiHashMap::get_by_right`: a left value paired with `r`, if any.
#[verifier::external_body]
pub(crate) fn slot_map_get_by_right(m: &BiHashMap<usize, PagePos>, r: PagePos) -> (res:
    Option<usize>)
    ensures
        match res {
            Some(l) => slot_pairs(*m).contains_key(l) && slot_pairs(*m)[l] == r,
            None => forall|l: usize| #[trigger]
                slot_pairs(*m).contains_key(l) ==> slot_pairs(*m)[l] != r,
        },
{
    m.get_by_right(&r).copied()
}

/// `BiHashMap::remove_by_left`: the pair with left value `l`, if any, is dropped.
#[verifier::external_body]
pub(crate) fn slot_map_remove_by_left(m: &mut BiHashMap<usize, PagePos>, l: usize)
    ensures
        slot_pairs(*final(m)) == slot_pairs(*old(m)).remove(l),
{
    m.remove_by_left(&l);
}

/// The pairs (file name, file id) that a name map holds, names taken as character sequences.
pub uninterp spec fn name_ids(m: BiHashMap<String, usize>) -> Map<Seq<char>, usize>;

/// `BiHashMap::new`: the new map holds no pair.
#[verifier::external_body]
pub(crate) fn name_map_new() -> (res: BiHashMap<String, usize>)
    ensures
        name_ids(res).is_empty(),
{
    BiHashMap::new()
}

/// `BiHashMap::insert`: every pair with the same name or the same id is dropped,
/// then the pair is added.
#[verifier::external_body]
pub(crate) fn name_map_insert(m: &mut BiHashMap<String, usize>, name: String, id: usize)
    ensures
        name_ids(*final(m)) == bimap_insert(name_ids(*old(m)), name@, id),
{
    m.insert(name, id);
}

/// `BiHashMap::get_by_left`: the id paired with `name`, if any.
#[verifier::external_body]
pub(crate) fn name_map_get_by_left(m: &BiHashMap<String, usize>, name: &str) -> (res: Option<usize>)
    ensures
        match res {
            Some(id) => name_ids(*m).contains_key(name@) && name_ids(*m)[name@] == id,
            None => !name_ids(*m).contains_key(name@),
        },
{
    m.get_by_left(name).copied()
}

/// `BiHashMap::get_by_right`: a name paired with `id`, if any.
#[verifier::external_body]
pub(crate) fn name_map_get_by_right(m: &BiHashMap<String, usize>, id: usize) -> (res: Option<&String>)
    ensures
        match res {
            Some(name) => name_ids(*m).contains_key(name@) && name_ids(*m)[name@] == id,
            None => forall|k: Seq<char>| #[trigger]
                name_ids(*m).contains_key(k) ==> name_ids(*m)[k] != id,
        },
{
    m.get_by_right(&id)
}

/// `BiHashMap::remove_by_left`: the pair with name `name`, if any, is dropped and returned.
#[verifier::external_body]
pub(crate) fn name_map_remove_by_left(m: &mut BiHashMap<String, usize>, name: &str) -> (res: Option<
    (String, usize),
>)
    ensures
        name_ids(*final(m)) == name_ids(*old(m)).remove(name@),
        match res {
            Some(pair) => name_ids(*old(m)).contains_key(name@) && pair.0@ == name@ && pair.1
                == name_ids(*old(m))[name@],
            None => !name_ids(*old(m)).contains_key(name@),
        },
{
    m.remove_by_left(name)
}

/// `BiHashMap::iter`: every pair, once each, in an order that the map does not fix.
#[verifier::external_body]
pub(crate) fn name_map_entries(m: &BiHashMap<String, usize>) -> (res: Vec<(String, usize)>)
    ensures
        forall|j: int|
            0 <= j < res@.len() ==> name_ids(*m).contains_key(#[trigger] res@[j].0@) && name_ids(
                *m,
            )[res@[j].0@] == res@[j].1,
        forall|k: Seq<char>| #[trigger]
            name_ids(*m).contains_key(k) ==> exists|j: int| 0 <= j < res@.len() && res@[j].0@ == k,
        forall|i: int, j: int|
            0 <= i < res@.len() && 0 <= j < res@.len() && #[trigger] res@[i].0@ == #[trigger] res@[j].0@
                ==> i == j,
{
    m.iter().map(|(k, v)| (k.clone(), *v)).collect()
}

} // verus!
