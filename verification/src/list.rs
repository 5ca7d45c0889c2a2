use vstd::prelude::*;

verus! {

// ---------------------------------------------------------------------------
// The abstract model: `list_num` ordered lists of distinct elements drawn from
// `0..capacity`.  List `l` is closed by a sentinel node `capacity + l`.
// ---------------------------------------------------------------------------

/// `k` indexes an element of list `l`.
pub open spec fn valid_pos(ls: Seq<Seq<usize>>, l: int, k: int) -> bool {
    0 <= l < ls.len() && 0 <= k < ls[l].len()
}

/// The predecessor link held by the node at position `k` of list `s`, whose sentinel is `h`.
pub open spec fn link_prev(s: Seq<usize>, k: int, h: usize) -> usize {
    if k == 0 {
        h
    } else {
        s[k - 1]
    }
}

/// The successor link held by the node at position `k` of list `s`, whose sentinel is `h`.
pub open spec fn link_next(s: Seq<usize>, k: int, h: usize) -> usize {
    if k + 1 == s.len() {
        h
    } else {
        s[k + 1]
    }
}

/// The (predecessor, successor) links of the sentinel `h` of list `s`.
pub open spec fn head_links(s: Seq<usize>, h: usize) -> (usize, usize) {
    if s.len() == 0 {
        (h, h)
    } else {
        (s.last(), s[0])
    }
}

/// `e` is an element of one of the lists.
pub open spec fn in_lists(ls: Seq<Seq<usize>>, e: usize) -> bool {
    exists|l: int, k: int| #![trigger ls[l][k]] valid_pos(ls, l, k) && ls[l][k] == e
}

/// The (list, position) at which `e` stands, when `in_lists(ls, e)`.
pub open spec fn locate(ls: Seq<Seq<usize>>, e: usize) -> (int, int) {
    choose|l: int, k: int| #![trigger ls[l][k]] valid_pos(ls, l, k) && ls[l][k] == e
}

/// The lists with `e` taken out of the list that holds it (unchanged if none does).
pub open spec fn erase_view(ls: Seq<Seq<usize>>, e: usize) -> Seq<Seq<usize>> {
    if in_lists(ls, e) {
        let (l, k) = locate(ls, e);
        ls.update(l, ls[l].remove(k))
    } else {
        ls
    }
}

/// Every element is below `cap`, and no element occurs twice over all the lists.
pub open spec fn elems_distinct(ls: Seq<Seq<usize>>, cap: nat) -> bool {
    &&& forall|l: int, k: int| #[trigger] valid_pos(ls, l, k) ==> ls[l][k] < cap
    &&& forall|l1: int, k1: int, l2: int, k2: int|
        #![trigger ls[l1][k1], ls[l2][k2]]
        valid_pos(ls, l1, k1) && valid_pos(ls, l2, k2) && ls[l1][k1] == ls[l2][k2] ==> l1 == l2
            && k1 == k2
}

/// What the successor link of node `idx` is: for a sentinel, the first element of its
/// list (itself when the list is empty); for an element, the next element of its list
/// (the sentinel after the last one); for an element in no list, itself.
pub open spec fn next_view(ls: Seq<Seq<usize>>, cap: nat, idx: usize) -> usize {
    if idx >= cap {
        let l = idx - cap;
        if ls[l].len() == 0 {
            idx
        } else {
            ls[l][0]
        }
    } else if in_lists(ls, idx) {
        let (l, k) = locate(ls, idx);
        link_next(ls[l], k, (cap + l) as usize)
    } else {
        idx
    }
}

/// When the elements are distinct, erasing the element at (l, k) removes exactly that position.
pub proof fn lemma_erase_view_at(ls: Seq<Seq<usize>>, cap: nat, l: int, k: int)
    requires
        elems_distinct(ls, cap),
        valid_pos(ls, l, k),
    ensures
        in_lists(ls, ls[l][k]),
        locate(ls, ls[l][k]) == (l, k),
        erase_view(ls, ls[l][k]) == ls.update(l, ls[l].remove(k)),
{
    let e = ls[l][k];
    assert(valid_pos(ls, l, k) && ls[l][k] == e);
    let (l2, k2) = locate(ls, e);
    assert(valid_pos(ls, l2, k2) && ls[l2][k2] == e);
}

/// Erasing an element from distinct lists leaves it in no list, and keeps the
/// lists distinct.
pub proof fn lemma_erase_view_removes(ls: Seq<Seq<usize>>, cap: nat, e: usize)
    requires
        elems_distinct(ls, cap),
    ensures
        !in_lists(erase_view(ls, e), e),
        elems_distinct(erase_view(ls, e), cap),
        erase_view(ls, e).len() == ls.len(),
{
    if in_lists(ls, e) {
        let (l, k) = locate(ls, e);
        let r = erase_view(ls, e);
        let s2 = ls[l].remove(k);
        assert(r == ls.update(l, s2));
        // positions of r map back to positions of ls
        assert forall|l2: int, k2: int| #[trigger] valid_pos(r, l2, k2) implies r[l2][k2] == ls[l2][if
        l2 == l && k2 >= k {
            k2 + 1
        } else {
            k2
        }] && valid_pos(ls, l2, if l2 == l && k2 >= k { k2 + 1 } else { k2 }) by {}
        assert(!in_lists(r, e)) by {
            if in_lists(r, e) {
                let (l2, k2) = choose|l2: int, k2: int|
                    #![trigger r[l2][k2]]
                    valid_pos(r, l2, k2) && r[l2][k2] == e;
                assert(valid_pos(r, l2, k2));
                let k3 = if l2 == l && k2 >= k { k2 + 1 } else { k2 };
                assert(ls[l2][k3] == ls[l][k]);
            }
        }
        assert forall|l1: int, k1: int, l2: int, k2: int|
            #![trigger r[l1][k1], r[l2][k2]]
            valid_pos(r, l1, k1) && valid_pos(r, l2, k2) && r[l1][k1] == r[l2][k2] implies l1 == l2
            && k1 == k2 by {
            assert(valid_pos(r, l1, k1) && valid_pos(r, l2, k2));
            let a = if l1 == l && k1 >= k { k1 + 1 } else { k1 };
            let b = if l2 == l && k2 >= k { k2 + 1 } else { k2 };
            assert(ls[l1][a] == ls[l2][b]);
        }
        assert forall|l2: int, k2: int| #[trigger] valid_pos(r, l2, k2) implies r[l2][k2] < cap by {
            let a = if l2 == l && k2 >= k { k2 + 1 } else { k2 };
            assert(valid_pos(ls, l2, a));
        }
    }
}

/// Moving `e` to the back of list `l` (what `MultiList::insert` does to the lists)
/// makes it the last element of that list, keeps the lists distinct, and leaves
/// the other lists without `e`.
pub proof fn lemma_insert_places_last(ls: Seq<Seq<usize>>, cap: nat, l: int, e: usize)
    requires
        elems_distinct(ls, cap),
        0 <= l < ls.len(),
        e < cap,
    ensures
        ({
            let r = erase_view(ls, e);
            let ins = r.update(l, r[l].push(e));
            &&& elems_distinct(ins, cap)
            &&& ins[l].last() == e
            &&& ins[l].drop_last() == r[l]
        }),
{
    lemma_erase_view_removes(ls, cap, e);
    let r = erase_view(ls, e);
    let ins = r.update(l, r[l].push(e));
    assert forall|l1: int, k1: int| #[trigger] valid_pos(ins, l1, k1) implies ins[l1][k1] < cap by {
        if !(l1 == l && k1 == r[l].len()) {
            assert(valid_pos(r, l1, k1));
        }
    }
    assert forall|l1: int, k1: int, l2: int, k2: int|
        #![trigger ins[l1][k1], ins[l2][k2]]
        valid_pos(ins, l1, k1) && valid_pos(ins, l2, k2) && ins[l1][k1] == ins[l2][k2] implies l1
        == l2 && k1 == k2 by {
        let last1 = l1 == l && k1 == r[l].len();
        let last2 = l2 == l && k2 == r[l].len();
        if !last1 && !last2 {
            assert(r[l1][k1] == r[l2][k2]);
        } else if !last1 {
            assert(r[l1][k1] == e);
        } else if !last2 {
            assert(r[l2][k2] == e);
        }
    }
    assert(ins[l].drop_last() =~= r[l]);
}

/// Moving `e` to the front of list `l` (what `MultiList::insert_as_first` does to
/// the lists) makes it the first element of that list and keeps the lists distinct.
pub proof fn lemma_insert_places_first(ls: Seq<Seq<usize>>, cap: nat, l: int, e: usize)
    requires
        elems_distinct(ls, cap),
        0 <= l < ls.len(),
        e < cap,
    ensures
        ({
            let r = erase_view(ls, e);
            let ins = r.update(l, seq![e] + r[l]);
            &&& elems_distinct(ins, cap)
            &&& ins[l][0] == e
            &&& ins[l].drop_first() == r[l]
        }),
{
    lemma_erase_view_removes(ls, cap, e);
    let r = erase_view(ls, e);
    let ins = r.update(l, seq![e] + r[l]);
    assert forall|l1: int, k1: int| #[trigger] valid_pos(ins, l1, k1) implies ins[l1][k1] < cap by {
        if l1 == l && k1 > 0 {
            assert(valid_pos(r, l1, k1 - 1));
        } else if l1 != l {
            assert(valid_pos(r, l1, k1));
        }
    }
    assert forall|l1: int, k1: int, l2: int, k2: int|
        #![trigger ins[l1][k1], ins[l2][k2]]
        valid_pos(ins, l1, k1) && valid_pos(ins, l2, k2) && ins[l1][k1] == ins[l2][k2] implies l1
        == l2 && k1 == k2 by {
        let a = if l1 == l { k1 - 1 } else { k1 };
        let b = if l2 == l { k2 - 1 } else { k2 };
        let first1 = l1 == l && k1 == 0;
        let first2 = l2 == l && k2 == 0;
        if !first1 && !first2 {
            assert(r[l1][a] == r[l2][b]);
        } else if !first1 {
            assert(r[l1][a] == e);
        } else if !first2 {
            assert(r[l2][b] == e);
        }
    }
    assert(ins[l].drop_first() =~= r[l]);
}

// ---------------------------------------------------------------------------
// The representation invariant.
// ---------------------------------------------------------------------------

spec fn node_ok(
    cap: nat,
    data: Seq<(usize, usize)>,
    ls: Seq<Seq<usize>>,
    place: Map<usize, (int, int)>,
    l: int,
    k: int,
) -> bool {
    let s = ls[l];
    let e = s[k];
    let h = (cap + l) as usize;
    &&& e < cap
    &&& place.contains_key(e)
    &&& place[e] == (l, k)
    &&& data[e as int] == (link_prev(s, k, h), link_next(s, k, h))
}

spec fn list_inv(
    cap: nat,
    n: nat,
    data: Seq<(usize, usize)>,
    ls: Seq<Seq<usize>>,
    place: Map<usize, (int, int)>,
) -> bool {
    &&& cap + n <= usize::MAX
    &&& data.len() == cap + n
    &&& ls.len() == n
    &&& forall|l: int, k: int| #[trigger] valid_pos(ls, l, k) ==> node_ok(cap, data, ls, place, l, k)
    &&& forall|l: int| 0 <= l < n ==> #[trigger] data[cap + l] == head_links(ls[l], (cap + l) as usize)
    &&& forall|e: usize| #[trigger]
        place.contains_key(e) ==> valid_pos(ls, place[e].0, place[e].1) && ls[place[e].0][place[e].1]
            == e
    &&& forall|e: usize| e < cap && !place.contains_key(e) ==> #[trigger] data[e as int] == (e, e)
}

/// The places after the element `e` has been taken out of its list.
spec fn unlink_place(place: Map<usize, (int, int)>, e: usize) -> Map<usize, (int, int)> {
    Map::new(
        |x: usize| place.contains_key(x) && x != e,
        |x: usize|
            if place[x].0 == place[e].0 && place[x].1 > place[e].1 {
                (place[x].0, place[x].1 - 1)
            } else {
                place[x]
            },
    )
}

/// The places after `e` has been put in front of list `l`.
spec fn front_place(place: Map<usize, (int, int)>, l: int, e: usize) -> Map<usize, (int, int)> {
    Map::new(
        |x: usize| place.contains_key(x) || x == e,
        |x: usize|
            if x == e {
                (l, 0)
            } else if place[x].0 == l {
                (l, place[x].1 + 1)
            } else {
                place[x]
            },
    )
}

proof fn lemma_inv_facts(
    cap: nat,
    n: nat,
    data: Seq<(usize, usize)>,
    ls: Seq<Seq<usize>>,
    place: Map<usize, (int, int)>,
)
    requires
        list_inv(cap, n, data, ls, place),
    ensures
        elems_distinct(ls, cap),
        forall|e: usize| #[trigger] place.contains_key(e) ==> in_lists(ls, e) && locate(ls, e) == place[e],
        forall|e: usize| #[trigger] in_lists(ls, e) ==> place.contains_key(e),
{
    assert forall|l: int, k: int| #[trigger] valid_pos(ls, l, k) implies ls[l][k] < cap by {
        assert(node_ok(cap, data, ls, place, l, k));
    }
    assert forall|l1: int, k1: int, l2: int, k2: int|
        #![trigger ls[l1][k1], ls[l2][k2]]
        valid_pos(ls, l1, k1) && valid_pos(ls, l2, k2) && ls[l1][k1] == ls[l2][k2] implies l1 == l2
        && k1 == k2 by {
        assert(node_ok(cap, data, ls, place, l1, k1));
        assert(node_ok(cap, data, ls, place, l2, k2));
    }
    assert forall|e: usize| #[trigger] place.contains_key(e) implies in_lists(ls, e) && locate(
        ls,
        e,
    ) == place[e] by {
        let (l, k) = place[e];
        assert(valid_pos(ls, l, k) && ls[l][k] == e);
        let (l2, k2) = locate(ls, e);
        assert(valid_pos(ls, l2, k2) && ls[l2][k2] == e);
        assert(node_ok(cap, data, ls, place, l2, k2));
    }
    assert forall|e: usize| #[trigger] in_lists(ls, e) implies place.contains_key(e) by {
        let (l, k) = choose|l: int, k: int| #![trigger ls[l][k]] valid_pos(ls, l, k) && ls[l][k] == e;
        assert(node_ok(cap, data, ls, place, l, k));
    }
}


proof fn lemma_unlink(
    cap: nat,
    n: nat,
    data: Seq<(usize, usize)>,
    ls: Seq<Seq<usize>>,
    place: Map<usize, (int, int)>,
    e: usize,
    new_data: Seq<(usize, usize)>,
)
    requires
        list_inv(cap, n, data, ls, place),
        place.contains_key(e),
        new_data.len() == data.len(),
        ({
            let (l, k) = place[e];
            let h = (cap + l) as usize;
            let p = link_prev(ls[l], k, h);
            let nx = link_next(ls[l], k, h);
            forall|x: int|
                0 <= x < data.len() ==> #[trigger] new_data[x] == if x == e {
                    (e, e)
                } else if x == p && x == nx {
                    (p, p)
                } else if x == p {
                    (data[x].0, nx)
                } else if x == nx {
                    (p, data[x].1)
                } else {
                    data[x]
                }
        }),
    ensures
        ({
            let (l, k) = place[e];
            list_inv(cap, n, new_data, ls.update(l, ls[l].remove(k)), unlink_place(place, e))
        }),
{
    let (l, k) = place[e];
    let s = ls[l];
    let h = (cap + l) as usize;
    let p = link_prev(s, k, h);
    let nx = link_next(s, k, h);
    let s2 = s.remove(k);
    let ls2 = ls.update(l, s2);
    let place2 = unlink_place(place, e);
    assert(valid_pos(ls, l, k));
    assert(node_ok(cap, data, ls, place, l, k));
    assert(0 <= l < n);
    assert(s[k] == e);
    // facts about the neighbours
    if k > 0 {
        assert(valid_pos(ls, l, k - 1));
        assert(node_ok(cap, data, ls, place, l, k - 1));
    }
    if k + 1 < s.len() {
        assert(valid_pos(ls, l, k + 1));
        assert(node_ok(cap, data, ls, place, l, k + 1));
    }
    assert(p != e);
    assert(nx != e);
    assert(p == nx ==> p == h && nx == h);
    assert forall|l2: int, k2: int| #[trigger] valid_pos(ls2, l2, k2) implies node_ok(
        cap,
        new_data,
        ls2,
        place2,
        l2,
        k2,
    ) by {
        let h2 = (cap + l2) as usize;
        if l2 != l {
            assert(valid_pos(ls, l2, k2));
            assert(node_ok(cap, data, ls, place, l2, k2));
            let x = ls[l2][k2];
            assert(ls2[l2] == ls[l2]);
            assert(x != e);
            if k > 0 {
                assert(x != p);
            }
            if k + 1 < s.len() {
                assert(x != nx);
            }
            assert(place2.contains_key(x));
        } else {
            if k2 < k {
                assert(valid_pos(ls, l, k2));
                assert(node_ok(cap, data, ls, place, l, k2));
                assert(s2[k2] == s[k2]);
                if k2 + 1 < k {
                    assert(valid_pos(ls, l, k2 + 1));
                    assert(node_ok(cap, data, ls, place, l, k2 + 1));
                }
                if k2 > 0 {
                    assert(s2[k2 - 1] == s[k2 - 1]);
                }
            } else {
                assert(valid_pos(ls, l, k2 + 1));
                assert(node_ok(cap, data, ls, place, l, k2 + 1));
                assert(s2[k2] == s[k2 + 1]);
                if k2 + 2 < s.len() {
                    assert(valid_pos(ls, l, k2 + 2));
                    assert(node_ok(cap, data, ls, place, l, k2 + 2));
                }
                if k2 > k {
                    assert(s2[k2 - 1] == s[k2]);
                    assert(valid_pos(ls, l, k2));
                    assert(node_ok(cap, data, ls, place, l, k2));
                }
            }
        }
    }
    assert forall|l2: int| 0 <= l2 < n implies #[trigger] new_data[cap + l2] == head_links(
        ls2[l2],
        (cap + l2) as usize,
    ) by {
        assert(data[cap + l2] == head_links(ls[l2], (cap + l2) as usize));
        if l2 == l {
            if s2.len() > 0 {
                assert(s2.last() == if k + 1 == s.len() { s[k - 1] } else { s.last() });
                assert(s2[0] == if k == 0 { s[1] } else { s[0] });
            }
        }
    }
    assert forall|x: usize| #[trigger] place2.contains_key(x) implies valid_pos(
        ls2,
        place2[x].0,
        place2[x].1,
    ) && ls2[place2[x].0][place2[x].1] == x by {
        let (lx, kx) = place[x];
        assert(valid_pos(ls, lx, kx) && ls[lx][kx] == x);
        assert(node_ok(cap, data, ls, place, lx, kx));
        assert((lx, kx) != (l, k));
    }
    assert forall|x: usize| x < cap && !place2.contains_key(x) implies #[trigger] new_data[x as int]
        == (x, x) by {
        if x != e {
            assert(!place.contains_key(x));
            if k > 0 {
                assert(x != p);
            }
            if k + 1 < s.len() {
                assert(x != nx);
            }
        }
    }
}


proof fn lemma_push_back(
    cap: nat,
    n: nat,
    data: Seq<(usize, usize)>,
    ls: Seq<Seq<usize>>,
    place: Map<usize, (int, int)>,
    l: int,
    e: usize,
    new_data: Seq<(usize, usize)>,
)
    requires
        list_inv(cap, n, data, ls, place),
        0 <= l < n,
        e < cap,
        !place.contains_key(e),
        new_data.len() == data.len(),
        ({
            let h = (cap + l) as usize;
            let p = head_links(ls[l], h).0;
            forall|x: int|
                0 <= x < data.len() ==> #[trigger] new_data[x] == if x == e {
                    (p, h)
                } else if x == h {
                    (e, if p == h { e } else { data[x].1 })
                } else if x == p {
                    (data[x].0, e)
                } else {
                    data[x]
                }
        }),
    ensures
        list_inv(
            cap,
            n,
            new_data,
            ls.update(l, ls[l].push(e)),
            place.insert(e, (l, ls[l].len() as int)),
        ),
{
    let s = ls[l];
    let h = (cap + l) as usize;
    let p = head_links(s, h).0;
    let s2 = s.push(e);
    let ls2 = ls.update(l, s2);
    let place2 = place.insert(e, (l, s.len() as int));
    assert(data[cap + l] == head_links(s, h));
    if s.len() > 0 {
        assert(valid_pos(ls, l, s.len() - 1));
        assert(node_ok(cap, data, ls, place, l, s.len() - 1));
    }
    assert forall|l2: int, k2: int| #[trigger] valid_pos(ls2, l2, k2) implies node_ok(
        cap,
        new_data,
        ls2,
        place2,
        l2,
        k2,
    ) by {
        if l2 != l {
            assert(valid_pos(ls, l2, k2));
            assert(node_ok(cap, data, ls, place, l2, k2));
            assert(ls2[l2] == ls[l2]);
            let x = ls[l2][k2];
            assert(x != e);
            if s.len() > 0 {
                assert(x != p);
            }
        } else if k2 < s.len() {
            assert(valid_pos(ls, l, k2));
            assert(node_ok(cap, data, ls, place, l, k2));
            assert(s2[k2] == s[k2]);
            if k2 + 1 < s.len() {
                assert(s2[k2 + 1] == s[k2 + 1]);
                assert(valid_pos(ls, l, k2 + 1));
                assert(node_ok(cap, data, ls, place, l, k2 + 1));
            }
            if k2 > 0 {
                assert(s2[k2 - 1] == s[k2 - 1]);
            }
        } else {
            assert(s2[k2] == e);
        }
    }
    assert forall|l2: int| 0 <= l2 < n implies #[trigger] new_data[cap + l2] == head_links(
        ls2[l2],
        (cap + l2) as usize,
    ) by {
        assert(data[cap + l2] == head_links(ls[l2], (cap + l2) as usize));
    }
    assert forall|x: usize| #[trigger] place2.contains_key(x) implies valid_pos(
        ls2,
        place2[x].0,
        place2[x].1,
    ) && ls2[place2[x].0][place2[x].1] == x by {
        if x != e {
            let (lx, kx) = place[x];
            assert(valid_pos(ls, lx, kx) && ls[lx][kx] == x);
        }
    }
    assert forall|x: usize| x < cap && !place2.contains_key(x) implies #[trigger] new_data[x as int]
        == (x, x) by {
        assert(x != e);
        if s.len() > 0 {
            assert(place.contains_key(p));
        }
    }
}

proof fn lemma_push_front(
    cap: nat,
    n: nat,
    data: Seq<(usize, usize)>,
    ls: Seq<Seq<usize>>,
    place: Map<usize, (int, int)>,
    l: int,
    e: usize,
    new_data: Seq<(usize, usize)>,
)
    requires
        list_inv(cap, n, data, ls, place),
        0 <= l < n,
        e < cap,
        !place.contains_key(e),
        new_data.len() == data.len(),
        ({
            let h = (cap + l) as usize;
            let nx = head_links(ls[l], h).1;
            forall|x: int|
                0 <= x < data.len() ==> #[trigger] new_data[x] == if x == e {
                    (h, nx)
                } else if x == h {
                    (if nx == h { e } else { data[x].0 }, e)
                } else if x == nx {
                    (e, data[x].1)
                } else {
                    data[x]
                }
        }),
    ensures
        list_inv(cap, n, new_data, ls.update(l, seq![e] + ls[l]), front_place(place, l, e)),
{
    let s = ls[l];
    let h = (cap + l) as usize;
    let nx = head_links(s, h).1;
    let s2 = seq![e] + s;
    let ls2 = ls.update(l, s2);
    let place2 = front_place(place, l, e);
    assert(data[cap + l] == head_links(s, h));
    if s.len() > 0 {
        assert(valid_pos(ls, l, 0));
        assert(node_ok(cap, data, ls, place, l, 0));
    }
    assert forall|l2: int, k2: int| #[trigger] valid_pos(ls2, l2, k2) implies node_ok(
        cap,
        new_data,
        ls2,
        place2,
        l2,
        k2,
    ) by {
        if l2 != l {
            assert(valid_pos(ls, l2, k2));
            assert(node_ok(cap, data, ls, place, l2, k2));
            assert(ls2[l2] == ls[l2]);
            let x = ls[l2][k2];
            assert(x != e);
            if s.len() > 0 {
                assert(x != nx);
            }
        } else if k2 == 0 {
            assert(s2[0] == e);
            if s.len() > 0 {
                assert(s2[1] == s[0]);
            }
        } else {
            assert(valid_pos(ls, l, k2 - 1));
            assert(node_ok(cap, data, ls, place, l, k2 - 1));
            assert(s2[k2] == s[k2 - 1]);
            assert(s2[k2 - 1] == if k2 == 1 { e } else { s[k2 - 2] });
            if k2 + 1 < s2.len() {
                assert(s2[k2 + 1] == s[k2]);
            }
        }
    }
    assert forall|l2: int| 0 <= l2 < n implies #[trigger] new_data[cap + l2] == head_links(
        ls2[l2],
        (cap + l2) as usize,
    ) by {
        assert(data[cap + l2] == head_links(ls[l2], (cap + l2) as usize));
        if l2 == l {
            assert(s2[0] == e);
            assert(s2.last() == if s.len() == 0 { e } else { s.last() });
        }
    }
    assert forall|x: usize| #[trigger] place2.contains_key(x) implies valid_pos(
        ls2,
        place2[x].0,
        place2[x].1,
    ) && ls2[place2[x].0][place2[x].1] == x by {
        if x != e {
            let (lx, kx) = place[x];
            assert(valid_pos(ls, lx, kx) && ls[lx][kx] == x);
            if lx == l {
                assert(s2[kx + 1] == s[kx]);
            }
        }
    }
    assert forall|x: usize| x < cap && !place2.contains_key(x) implies #[trigger] new_data[x as int]
        == (x, x) by {
        assert(x != e);
        if s.len() > 0 {
            assert(place.contains_key(nx));
        }
    }
}


/// A fixed set of doubly linked, circular lists over the elements `0..capacity`,
/// stored in one array: node `i < capacity` is element `i`, node `capacity + l`
/// is the sentinel of list `l`.  Each node holds its (predecessor, successor);
/// an element that is in no list links to itself.
pub struct MultiList {
    capacity: usize,
    list_num: usize,
    data: Vec<(usize, usize)>,
    lists: Ghost<Seq<Seq<usize>>>,
    place: Ghost<Map<usize, (int, int)>>,
}

impl View for MultiList {
    type V = Seq<Seq<usize>>;

    /// The contents of the lists, each in order from first to last.
    closed spec fn view(&self) -> Seq<Seq<usize>> {
        self.lists@
    }
}

impl MultiList {
    /// Number of elements the lists share.
    pub closed spec fn spec_capacity(&self) -> nat {
        self.capacity as nat
    }

    /// Number of lists.
    pub closed spec fn spec_list_num(&self) -> nat {
        self.list_num as nat
    }

    /// The links stored in the array agree with the lists.
    pub closed spec fn wf(&self) -> bool {
        list_inv(
            self.capacity as nat,
            self.list_num as nat,
            self.data@,
            self.lists@,
            self.place@,
        )
    }

    /// What follows from well-formedness for users of the lists: their number,
    /// the node count fits in `usize`, and the elements are distinct and in range.
    pub proof fn lemma_wf(&self)
        requires
            self.wf(),
        ensures
            self@.len() == self.spec_list_num(),
            self.spec_capacity() + self.spec_list_num() <= usize::MAX,
            elems_distinct(self@, self.spec_capacity()),
    {
        lemma_inv_facts(
            self.capacity as nat,
            self.list_num as nat,
            self.data@,
            self.lists@,
            self.place@,
        );
    }

    fn link(&mut self, prev: usize, next: usize)
        requires
            prev < old(self).data@.len(),
            next < old(self).data@.len(),
        ensures
            final(self).capacity == old(self).capacity,
            final(self).list_num == old(self).list_num,
            final(self).lists == old(self).lists,
            final(self).place == old(self).place,
            final(self).data@ == ({
                let d1 = old(self).data@.update(prev as int, (old(self).data@[prev as int].0, next));
                d1.update(next as int, (prev, d1[next as int].1))
            }),
    {
        let (p0, _) = self.data[prev];
        self.data.set(prev, (p0, next));
        let (_, n1) = self.data[next];
        self.data.set(next, (prev, n1));
    }

    /// Creates `list_num` empty lists over the elements `0..capacity`.
    pub fn new(capacity: usize, list_num: usize) -> (res: MultiList)
        requires
            capacity + list_num <= usize::MAX,
        ensures
            res.wf(),
            res.spec_capacity() == capacity,
            res.spec_list_num() == list_num,
            res@ == Seq::new(list_num as nat, |l: int| Seq::<usize>::empty()),
    {
        let total = capacity + list_num;
        let mut v: Vec<(usize, usize)> = Vec::new();
        let mut i: usize = 0;
        while i < total
            invariant
                i <= total,
                v@.len() == i,
                forall|j: int| 0 <= j < i ==> #[trigger] v@[j] == (j as usize, j as usize),
            decreases total - i,
        {
            v.push((i, i));
            i = i + 1;
        }
        let ghost ls = Seq::new(list_num as nat, |l: int| Seq::<usize>::empty());
        let res = MultiList {
            capacity,
            list_num,
            data: v,
            lists: Ghost(ls),
            place: Ghost(Map::empty()),
        };
        proof {
            assert forall|l: int, k: int| #[trigger] valid_pos(ls, l, k) implies node_ok(
                capacity as nat,
                v@,
                ls,
                Map::empty(),
                l,
                k,
            ) by {}
            assert forall|l: int| 0 <= l < list_num implies #[trigger] v@[capacity + l]
                == head_links(ls[l], (capacity + l) as usize) by {
                assert(v@[capacity + l] == ((capacity + l) as usize, (capacity + l) as usize));
            }
        }
        res
    }

    /// Takes the element `idx` out of the list that holds it; does nothing when it is in no list.
    pub fn erase(&mut self, idx: usize)
        requires
            old(self).wf(),
            idx < old(self).spec_capacity(),
        ensures
            final(self).wf(),
            final(self).spec_capacity() == old(self).spec_capacity(),
            final(self).spec_list_num() == old(self).spec_list_num(),
            final(self)@ == erase_view(old(self)@, idx),
            !in_lists(final(self)@, idx),
    {
        proof {
            lemma_inv_facts(
                self.capacity as nat,
                self.list_num as nat,
                self.data@,
                self.lists@,
                self.place@,
            );
        }
        let (p, nx) = self.data[idx];
        if p != idx {
            let ghost cap = self.capacity as nat;
            let ghost data0 = self.data@;
            let ghost ls0 = self.lists@;
            let ghost place0 = self.place@;
            proof {
                if !place0.contains_key(idx) {
                    assert(data0[idx as int] == (idx, idx));
                }
                let (l, k) = place0[idx];
                assert(valid_pos(ls0, l, k));
                assert(node_ok(cap, data0, ls0, place0, l, k));
                assert(0 <= l < self.list_num);
                if k > 0 {
                    assert(valid_pos(ls0, l, k - 1));
                    assert(node_ok(cap, data0, ls0, place0, l, k - 1));
                }
                if k + 1 < ls0[l].len() {
                    assert(valid_pos(ls0, l, k + 1));
                    assert(node_ok(cap, data0, ls0, place0, l, k + 1));
                }
            }
            self.link(p, nx);
            self.data.set(idx, (idx, idx));
            proof {
                let (l, k) = place0[idx];
                lemma_unlink(cap, self.list_num as nat, data0, ls0, place0, idx, self.data@);
                self.lists@ = ls0.update(l, ls0[l].remove(k));
                self.place@ = unlink_place(place0, idx);
                lemma_inv_facts(
                    self.capacity as nat,
                    self.list_num as nat,
                    self.data@,
                    self.lists@,
                    self.place@,
                );
            }
        } else {
            proof {
                if self.place@.contains_key(idx) {
                    let (l, k) = self.place@[idx];
                    assert(valid_pos(self.lists@, l, k));
                    assert(node_ok(
                        self.capacity as nat,
                        self.data@,
                        self.lists@,
                        self.place@,
                        l,
                        k,
                    ));
                    if k > 0 {
                        assert(valid_pos(self.lists@, l, k - 1));
                        assert(node_ok(
                            self.capacity as nat,
                            self.data@,
                            self.lists@,
                            self.place@,
                            l,
                            k - 1,
                        ));
                    }
                }
            }
        }
    }

    /// Moves `elem` to the back of list `list_idx` (taking it out of wherever it was).
    pub fn insert(&mut self, list_idx: usize, elem: usize)
        requires
            old(self).wf(),
            list_idx < old(self).spec_list_num(),
            elem < old(self).spec_capacity(),
        ensures
            final(self).wf(),
            final(self).spec_capacity() == old(self).spec_capacity(),
            final(self).spec_list_num() == old(self).spec_list_num(),
            final(self)@ == erase_view(old(self)@, elem).update(
                list_idx as int,
                erase_view(old(self)@, elem)[list_idx as int].push(elem),
            ),
    {
        self.erase(elem);
        proof {
            lemma_inv_facts(
                self.capacity as nat,
                self.list_num as nat,
                self.data@,
                self.lists@,
                self.place@,
            );
            self.lemma_erased_is_free(elem);
        }
        let list_head = list_idx + self.capacity;
        let ghost data0 = self.data@;
        let ghost ls0 = self.lists@;
        let ghost place0 = self.place@;
        let prev = self.data[list_head].0;
        proof {
            assert(data0[self.capacity + list_idx] == head_links(ls0[list_idx as int], list_head));
            if ls0[list_idx as int].len() > 0 {
                assert(valid_pos(ls0, list_idx as int, ls0[list_idx as int].len() - 1));
            }
        }
        self.link(prev, elem);
        self.link(elem, list_head);
        proof {
            lemma_push_back(
                self.capacity as nat,
                self.list_num as nat,
                data0,
                ls0,
                place0,
                list_idx as int,
                elem,
                self.data@,
            );
            self.lists@ = ls0.update(list_idx as int, ls0[list_idx as int].push(elem));
            self.place@ = place0.insert(elem, (list_idx as int, ls0[list_idx as int].len() as int));
        }
    }

    /// Moves `elem` to the front of list `list_idx` (taking it out of wherever it was).
    pub fn insert_as_first(&mut self, list_idx: usize, elem: usize)
        requires
            old(self).wf(),
            list_idx < old(self).spec_list_num(),
            elem < old(self).spec_capacity(),
        ensures
            final(self).wf(),
            final(self).spec_capacity() == old(self).spec_capacity(),
            final(self).spec_list_num() == old(self).spec_list_num(),
            final(self)@ == erase_view(old(self)@, elem).update(
                list_idx as int,
                seq![elem] + erase_view(old(self)@, elem)[list_idx as int],
            ),
    {
        self.erase(elem);
        proof {
            lemma_inv_facts(
                self.capacity as nat,
                self.list_num as nat,
                self.data@,
                self.lists@,
                self.place@,
            );
            self.lemma_erased_is_free(elem);
        }
        let list_head = list_idx + self.capacity;
        let ghost data0 = self.data@;
        let ghost ls0 = self.lists@;
        let ghost place0 = self.place@;
        let next = self.data[list_head].1;
        proof {
            assert(data0[self.capacity + list_idx] == head_links(ls0[list_idx as int], list_head));
            if ls0[list_idx as int].len() > 0 {
                assert(valid_pos(ls0, list_idx as int, 0));
            }
        }
        self.link(list_head, elem);
        self.link(elem, next);
        proof {
            lemma_push_front(
                self.capacity as nat,
                self.list_num as nat,
                data0,
                ls0,
                place0,
                list_idx as int,
                elem,
                self.data@,
            );
            self.lists@ = ls0.update(list_idx as int, seq![elem] + ls0[list_idx as int]);
            self.place@ = front_place(place0, list_idx as int, elem);
        }
    }

    proof fn lemma_erased_is_free(&self, e: usize)
        requires
            self.wf(),
            e < self.capacity,
            !in_lists(self@, e),
        ensures
            !self.place@.contains_key(e),
    {
        lemma_inv_facts(
            self.capacity as nat,
            self.list_num as nat,
            self.data@,
            self.lists@,
            self.place@,
        );
    }

    /// The first element of list `list_idx`, or its sentinel `capacity + list_idx` when it is empty.
    pub fn get_first(&self, list_idx: usize) -> (res: usize)
        requires
            self.wf(),
            list_idx < self.spec_list_num(),
        ensures
            res == next_view(self@, self.spec_capacity(), (self.spec_capacity() + list_idx) as usize),
            res == if self@[list_idx as int].len() == 0 {
                (self.spec_capacity() + list_idx) as usize
            } else {
                self@[list_idx as int][0]
            },
    {
        proof {
            assert(self.data@[self.capacity + list_idx] == head_links(
                self.lists@[list_idx as int],
                (self.capacity + list_idx) as usize,
            ));
        }
        self.data[list_idx + self.capacity].1
    }

    /// The successor link of node `idx` (see `next_view`).
    pub fn next(&self, idx: usize) -> (res: usize)
        requires
            self.wf(),
            idx < self.spec_capacity() + self.spec_list_num(),
        ensures
            res == next_view(self@, self.spec_capacity(), idx),
    {
        proof {
            self.lemma_next(idx);
        }
        self.data[idx].1
    }

    proof fn lemma_next(&self, idx: usize)
        requires
            self.wf(),
            idx < self.capacity + self.list_num,
        ensures
            self.data@[idx as int].1 == next_view(self@, self.spec_capacity(), idx),
    {
        lemma_inv_facts(
            self.capacity as nat,
            self.list_num as nat,
            self.data@,
            self.lists@,
            self.place@,
        );
        if idx >= self.capacity {
            let l = idx - self.capacity;
            assert(self.data@[self.capacity + l] == head_links(
                self.lists@[l],
                (self.capacity + l) as usize,
            ));
        } else if self.place@.contains_key(idx) {
            let (l, k) = self.place@[idx];
            assert(valid_pos(self.lists@, l, k));
            assert(node_ok(
                self.capacity as nat,
                self.data@,
                self.lists@,
                self.place@,
                l,
                k,
            ));
        }
    }

    /// `idx` is the sentinel of a list.
    pub fn is_head(&self, idx: usize) -> (res: bool)
        requires
            self.wf(),
            idx < self.spec_capacity() + self.spec_list_num(),
        ensures
            res == (idx >= self.spec_capacity()),
    {
        idx >= self.capacity
    }

    /// The successor link of node `idx` is `idx` itself: an element that is in no
    /// list, or the sentinel of an empty list.
    pub fn is_alone(&self, idx: usize) -> (res: bool)
        requires
            self.wf(),
            idx < self.spec_capacity() + self.spec_list_num(),
        ensures
            res == (next_view(self@, self.spec_capacity(), idx) == idx),
            idx < self.spec_capacity() ==> (res == !in_lists(self@, idx)),
            idx >= self.spec_capacity() ==> (res == (self@[idx - self.spec_capacity()].len() == 0)),
    {
        proof {
            self.lemma_next(idx);
            lemma_inv_facts(
                self.capacity as nat,
                self.list_num as nat,
                self.data@,
                self.lists@,
                self.place@,
            );
            if idx >= self.capacity && self.lists@[idx - self.capacity].len() > 0 {
                assert(valid_pos(self.lists@, idx - self.capacity, 0));
            }
            if idx < self.capacity && self.place@.contains_key(idx) {
                let (l, k) = self.place@[idx];
                assert(valid_pos(self.lists@, l, k));
                assert(node_ok(
                    self.capacity as nat,
                    self.data@,
                    self.lists@,
                    self.place@,
                    l,
                    k,
                ));
                if k + 1 < self.lists@[l].len() {
                    assert(valid_pos(self.lists@, l, k + 1));
                    assert(node_ok(
                        self.capacity as nat,
                        self.data@,
                        self.lists@,
                        self.place@,
                        l,
                        k + 1,
                    ));
                }
            }
        }
        self.data[idx].1 == idx
    }
}

} // verus!
