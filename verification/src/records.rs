//! Flat folder records as a remote query returns them: an opaque id, a
//! display name, and the ids of the record's parents. This module gives the
//! records their mathematical reading: which ids appear, in what order, and
//! which of them can serve as the root.
use vstd::prelude::*;

verus! {

use vstd::seq_lib::*;

/// One folder, as described by the remote service.
#[derive(Clone, Debug)]
pub struct FolderRecord {
    pub id: String,
    pub name: String,
    pub parents: Vec<String>,
}

/// Whether some record carries this id as its own.
pub open spec fn rec_has(rs: Seq<FolderRecord>, id: Seq<char>) -> bool {
    exists|i: int| 0 <= i < rs.len() && #[trigger] rs[i].id@ == id
}

pub open spec fn rec_idx(rs: Seq<FolderRecord>, id: Seq<char>) -> int {
    choose|i: int| 0 <= i < rs.len() && #[trigger] rs[i].id@ == id
}

/// The record carrying this id (meaningful when ids are distinct).
pub open spec fn rec_at(rs: Seq<FolderRecord>, id: Seq<char>) -> FolderRecord {
    rs[rec_idx(rs, id)]
}

/// Whether this id is referenced as a parent by some record.
pub open spec fn rec_parent_of(rs: Seq<FolderRecord>, id: Seq<char>) -> bool {
    exists|i: int| 0 <= i < rs.len() && (#[trigger] rs[i].parents.deep_view()).contains(id)
}

/// Whether the id participates at all: as a record's own id or as a parent.
pub open spec fn appears(rs: Seq<FolderRecord>, id: Seq<char>) -> bool {
    rec_has(rs, id) || rec_parent_of(rs, id)
}

/// Ids are unique among records seen: the data model's input guarantee.
pub open spec fn records_distinct(rs: Seq<FolderRecord>) -> bool {
    forall|i: int, j: int| 0 <= i < j < rs.len() ==> rs[i].id@ != rs[j].id@
}

pub proof fn lemma_rec_idx_is(rs: Seq<FolderRecord>, id: Seq<char>, k: int)
    requires
        records_distinct(rs),
        0 <= k < rs.len(),
        rs[k].id@ == id,
    ensures
        rec_idx(rs, id) == k,
        rec_at(rs, id) == rs[k],
{
    assert(rec_has(rs, id));
    let i = rec_idx(rs, id);
    if i < k {
        assert(rs[i].id@ != rs[k].id@);
    } else if k < i {
        assert(rs[k].id@ != rs[i].id@);
    }
}

/// The ids of the records whose parents include `id`, in record order: the
/// derived child edges of the node `id`.
pub open spec fn kids(rs: Seq<FolderRecord>, id: Seq<char>) -> Seq<Seq<char>>
    decreases rs.len(),
{
    if rs.len() == 0 {
        Seq::empty()
    } else {
        kids(rs.drop_last(), id) + (if rs.last().parents.deep_view().contains(id) {
            seq![rs.last().id@]
        } else {
            Seq::<Seq<char>>::empty()
        })
    }
}

/// Appends an id unless it is already listed.
pub open spec fn push_new(acc: Seq<Seq<char>>, x: Seq<char>) -> Seq<Seq<char>> {
    if acc.contains(x) {
        acc
    } else {
        acc.push(x)
    }
}

pub open spec fn push_news(acc: Seq<Seq<char>>, xs: Seq<Seq<char>>) -> Seq<Seq<char>>
    decreases xs.len(),
{
    if xs.len() == 0 {
        acc
    } else {
        push_news(push_new(acc, xs[0]), xs.drop_first())
    }
}

/// Every id that appears, in order of first appearance; within one record
/// the record's own id comes before its parent ids.
pub open spec fn id_list(rs: Seq<FolderRecord>) -> Seq<Seq<char>>
    decreases rs.len(),
{
    if rs.len() == 0 {
        Seq::empty()
    } else {
        push_news(push_new(id_list(rs.drop_last()), rs.last().id@), rs.last().parents.deep_view())
    }
}

pub proof fn lemma_push_news_contains(acc: Seq<Seq<char>>, xs: Seq<Seq<char>>, y: Seq<char>)
    ensures
        push_news(acc, xs).contains(y) <==> acc.contains(y) || xs.contains(y),
    decreases xs.len(),
{
    if xs.len() == 0 {
        assert(!xs.contains(y));
    } else {
        lemma_push_news_contains(push_new(acc, xs[0]), xs.drop_first(), y);
        assert(push_new(acc, xs[0]).contains(y) <==> acc.contains(y) || y == xs[0]) by {
            if !acc.contains(xs[0]) {
                assert(forall|i: int|
                    0 <= i < acc.len() ==> acc.push(xs[0])[i] == #[trigger] acc[i]);
                assert(acc.push(xs[0])[acc.len() as int] == xs[0]);
            }
        }
        assert(xs.contains(y) <==> y == xs[0] || xs.drop_first().contains(y)) by {
            if xs.contains(y) {
                let i = choose|i: int| 0 <= i < xs.len() && xs[i] == y;
                if i > 0 {
                    assert(xs.drop_first()[i - 1] == y);
                }
            }
            if xs.drop_first().contains(y) {
                let i = choose|i: int| 0 <= i < xs.drop_first().len() && xs.drop_first()[i] == y;
                assert(xs[i + 1] == y);
            }
        }
    }
}

pub proof fn lemma_push_news_no_dup(acc: Seq<Seq<char>>, xs: Seq<Seq<char>>)
    requires
        acc.no_duplicates(),
    ensures
        push_news(acc, xs).no_duplicates(),
    decreases xs.len(),
{
    if xs.len() == 0 {
    } else {
        assert(push_new(acc, xs[0]).no_duplicates());
        lemma_push_news_no_dup(push_new(acc, xs[0]), xs.drop_first());
    }
}

/// The id list has no duplicates.
pub proof fn lemma_id_list_no_dup(rs: Seq<FolderRecord>)
    ensures
        id_list(rs).no_duplicates(),
    decreases rs.len(),
{
    if rs.len() == 0 {
    } else {
        lemma_id_list_no_dup(rs.drop_last());
        lemma_push_news_no_dup(push_new(id_list(rs.drop_last()), rs.last().id@),
            rs.last().parents.deep_view());
    }
}

/// The id list holds exactly the ids that appear in the records.
pub proof fn lemma_id_list_appears(rs: Seq<FolderRecord>, id: Seq<char>)
    ensures
        id_list(rs).contains(id) <==> appears(rs, id),
    decreases rs.len(),
{
    if rs.len() == 0 {
        assert(!rec_has(rs, id));
        assert(!rec_parent_of(rs, id));
    } else {
        let prev = rs.drop_last();
        lemma_id_list_appears(prev, id);
        lemma_push_news_contains(push_new(id_list(prev), rs.last().id@),
            rs.last().parents.deep_view(), id);
        assert(push_new(id_list(prev), rs.last().id@).contains(id) <==> id_list(prev).contains(id)
            || id == rs.last().id@) by {
            let acc = id_list(prev);
            if !acc.contains(rs.last().id@) {
                assert(forall|i: int|
                    0 <= i < acc.len() ==> acc.push(rs.last().id@)[i] == #[trigger] acc[i]);
                assert(acc.push(rs.last().id@)[acc.len() as int] == rs.last().id@);
            }
        }
        assert(rec_has(rs, id) <==> rec_has(prev, id) || id == rs.last().id@) by {
            if rec_has(rs, id) {
                let i = rec_idx(rs, id);
                if i < rs.len() - 1 {
                    assert(prev[i].id@ == id);
                }
            }
            if rec_has(prev, id) {
                let i = rec_idx(prev, id);
                assert(rs[i].id@ == id);
            }
            assert(rs[rs.len() - 1].id@ == rs.last().id@);
        }
        assert(rec_parent_of(rs, id) <==> rec_parent_of(prev, id)
            || rs.last().parents.deep_view().contains(id)) by {
            if rec_parent_of(rs, id) {
                let i = choose|i: int|
                    0 <= i < rs.len() && (#[trigger] rs[i].parents.deep_view()).contains(id);
                if i < rs.len() - 1 {
                    assert(prev[i].parents.deep_view().contains(id));
                }
            }
            if rec_parent_of(prev, id) {
                let i = choose|i: int|
                    0 <= i < prev.len() && (#[trigger] prev[i].parents.deep_view()).contains(id);
                assert(rs[i].parents.deep_view().contains(id));
            }
            assert(rs[rs.len() - 1] == rs.last());
        }
    }
}

/// The id of the last record in the list that is a child of `parent` named
/// `name`: the write that wins the cache slot under last-write-wins.
pub open spec fn last_child_named(
    rs: Seq<FolderRecord>,
    parent: Seq<char>,
    name: Seq<char>,
) -> Seq<char>
    decreases rs.len(),
{
    if rs.len() == 0 {
        Seq::empty()
    } else if rs.last().parents.deep_view().contains(parent) && rs.last().name@ == name {
        rs.last().id@
    } else {
        last_child_named(rs.drop_last(), parent, name)
    }
}

/// Whether an id can be the inferred root: it either has its own record with
/// no parents, or is referenced as a parent while having no record of its own.
pub open spec fn is_candidate(rs: Seq<FolderRecord>, id: Seq<char>) -> bool {
    if rec_has(rs, id) {
        rec_at(rs, id).parents@.len() == 0
    } else {
        rec_parent_of(rs, id)
    }
}

/// The ids among `ids` that can be the root, in order.
pub open spec fn candidates_among(rs: Seq<FolderRecord>, ids: Seq<Seq<char>>) -> Seq<Seq<char>>
    decreases ids.len(),
{
    if ids.len() == 0 {
        Seq::empty()
    } else {
        candidates_among(rs, ids.drop_last()) + (if is_candidate(rs, ids.last()) {
            seq![ids.last()]
        } else {
            Seq::<Seq<char>>::empty()
        })
    }
}

/// All root candidates, in order of first appearance.
pub open spec fn candidates(rs: Seq<FolderRecord>) -> Seq<Seq<char>> {
    candidates_among(rs, id_list(rs))
}

/// Every listed candidate is a candidate drawn from the id list.
pub proof fn lemma_candidates_among_sub(rs: Seq<FolderRecord>, ids: Seq<Seq<char>>, x: Seq<char>)
    requires
        candidates_among(rs, ids).contains(x),
    ensures
        ids.contains(x),
        is_candidate(rs, x),
    decreases ids.len(),
{
    if ids.len() == 0 {
    } else {
        let c = candidates_among(rs, ids);
        let cp = candidates_among(rs, ids.drop_last());
        let i = choose|i: int| 0 <= i < c.len() && c[i] == x;
        if i < cp.len() {
            assert(cp[i] == x);
            lemma_candidates_among_sub(rs, ids.drop_last(), x);
            let j = choose|j: int| 0 <= j < ids.drop_last().len() && ids.drop_last()[j] == x;
            assert(ids[j] == x);
        } else {
            assert(is_candidate(rs, ids.last()) && c[i] == ids.last());
            assert(ids[ids.len() - 1] == x);
        }
    }
}

/// Every candidate drawn from the ids is listed.
pub proof fn lemma_candidates_among_complete(
    rs: Seq<FolderRecord>,
    ids: Seq<Seq<char>>,
    x: Seq<char>,
)
    requires
        ids.contains(x),
        is_candidate(rs, x),
    ensures
        candidates_among(rs, ids).contains(x),
    decreases ids.len(),
{
    let i = choose|i: int| 0 <= i < ids.len() && ids[i] == x;
    let c = candidates_among(rs, ids);
    let cp = candidates_among(rs, ids.drop_last());
    if i < ids.len() - 1 {
        assert(ids.drop_last()[i] == x);
        lemma_candidates_among_complete(rs, ids.drop_last(), x);
        let j = choose|j: int| 0 <= j < cp.len() && cp[j] == x;
        assert(c[j] == x);
    } else {
        assert(ids.last() == x);
        assert(c[cp.len() as int] == x);
    }
}

/// Collects the root candidates among the given ids, in order.
pub fn root_candidates(records: &Vec<FolderRecord>, ids: &Vec<String>) -> (r: Vec<String>)
    requires
        records_distinct(records@),
        ids.deep_view() == id_list(records@),
    ensures
        r.deep_view() == candidates(records@),
{
    let mut cands: Vec<String> = Vec::new();
    let n = ids.len();
    let mut i: usize = 0;
    while i < n
        invariant
            n == ids@.len(),
            0 <= i <= n,
            records_distinct(records@),
            ids.deep_view() == id_list(records@),
            cands.deep_view() == candidates_among(records@, ids.deep_view().take(i as int)),
        decreases n - i,
    {
        let ghost prefix = ids.deep_view().take(i as int);
        proof {
            assert(ids.deep_view().take(i + 1).drop_last() =~= prefix);
            assert(ids.deep_view().take(i + 1).last() == ids.deep_view()[i as int]);
        }
        let is_cand = match find_record(records, &ids[i]) {
            Some(k) => {
                proof {
                    lemma_rec_idx_is(records@, ids.deep_view()[i as int], k as int);
                }
                records[k].parents.len() == 0
            },
            None => {
                proof {
                    assert(id_list(records@).contains(ids.deep_view()[i as int])) by {
                        assert(id_list(records@)[i as int] == ids.deep_view()[i as int]);
                    }
                    lemma_id_list_appears(records@, ids.deep_view()[i as int]);
                }
                true
            },
        };
        proof {
            assert(is_cand == is_candidate(records@, ids.deep_view()[i as int]));
        }
        let ghost before = cands.deep_view();
        if is_cand {
            let cloned = ids[i].clone();
            cands.push(cloned);
            proof {
                assert(cands.deep_view() =~= before.push(ids.deep_view()[i as int]));
                assert(cands.deep_view() =~= before + seq![ids.deep_view()[i as int]]);
            }
        } else {
            proof {
                assert(cands.deep_view() =~= before + Seq::<Seq<char>>::empty());
            }
        }
        i += 1;
    }
    proof {
        assert(ids.deep_view().take(n as int) =~= ids.deep_view());
    }
    cands
}

/// Finds the record that carries `id`, if one does.
pub fn find_record(records: &Vec<FolderRecord>, id: &String) -> (r: Option<usize>)
    ensures
        r matches Some(k) ==> k < records@.len() && records@[k as int].id@ == id@,
        r is None ==> !rec_has(records@, id@),
{
    let n = records.len();
    let mut i: usize = 0;
    while i < n
        invariant
            n == records@.len(),
            0 <= i <= n,
            forall|j: int| 0 <= j < i ==> #[trigger] records@[j].id@ != id@,
        decreases n - i,
    {
        if records[i].id == *id {
            return Some(i);
        }
        i += 1;
    }
    None
}

/// Whether the string list contains the given string.
pub fn contains_str(v: &Vec<String>, x: &String) -> (r: bool)
    ensures
        r == v.deep_view().contains(x@),
{
    let n = v.len();
    let mut i: usize = 0;
    while i < n
        invariant
            n == v@.len(),
            0 <= i <= n,
            forall|j: int| 0 <= j < i ==> v.deep_view()[j] != x@,
        decreases n - i,
    {
        if v[i] == *x {
            assert(v.deep_view()[i as int] == v@[i as int]@);
            return true;
        }
        assert(v.deep_view()[i as int] == v@[i as int]@);
        i += 1;
    }
    false
}

/// Collects every id that appears in the records, in first-appearance order.
pub fn collect_ids(records: &Vec<FolderRecord>) -> (r: Vec<String>)
    ensures
        r.deep_view() == id_list(records@),
{
    let mut ids: Vec<String> = Vec::new();
    let n = records.len();
    let mut i: usize = 0;
    while i < n
        invariant
            n == records@.len(),
            0 <= i <= n,
            ids.deep_view() == id_list(records@.take(i as int)),
        decreases n - i,
    {
        let ghost prefix = records@.take(i as int);
        let r = &records[i];
        proof {
            assert(records@.take(i + 1).drop_last() =~= prefix);
            assert(records@.take(i + 1).last() == records@[i as int]);
        }
        let ghost acc0 = push_new(ids.deep_view(), r.id@);
        if !contains_str(&ids, &r.id) {
            let cloned = r.id.clone();
            let ghost before = ids.deep_view();
            ids.push(cloned);
            proof {
                assert(ids.deep_view() =~= before.push(r.id@));
            }
        }
        proof {
            assert(ids.deep_view() == acc0);
        }
        let m = r.parents.len();
        let mut k: usize = 0;
        while k < m
            invariant
                m == r.parents@.len(),
                0 <= k <= m,
                ids.deep_view() == push_news(acc0, r.parents.deep_view().take(k as int)),
            decreases m - k,
        {
            let ghost ptaken = r.parents.deep_view().take(k as int);
            let ghost before = ids.deep_view();
            if !contains_str(&ids, &r.parents[k]) {
                let cloned = r.parents[k].clone();
                ids.push(cloned);
                proof {
                    assert(ids.deep_view() =~= before.push(r.parents.deep_view()[k as int]));
                }
            }
            proof {
                assert(ids.deep_view() == push_new(before, r.parents.deep_view()[k as int]));
                lemma_push_news_snoc(acc0, ptaken, r.parents.deep_view()[k as int]);
                assert(ptaken.push(r.parents.deep_view()[k as int]) =~= r.parents.deep_view().take(
                    k + 1));
            }
            k += 1;
        }
        proof {
            assert(r.parents.deep_view().take(m as int) =~= r.parents.deep_view());
            assert(ids.deep_view() == id_list(records@.take(i + 1)));
        }
        i += 1;
    }
    proof {
        assert(records@.take(n as int) =~= records@);
    }
    ids
}

pub proof fn lemma_push_news_snoc(acc: Seq<Seq<char>>, xs: Seq<Seq<char>>, x: Seq<char>)
    ensures
        push_news(acc, xs.push(x)) == push_new(push_news(acc, xs), x),
    decreases xs.len(),
{
    if xs.len() == 0 {
        assert(xs.push(x).drop_first() =~= Seq::<Seq<char>>::empty());
        assert(xs.push(x)[0] == x);
        assert(push_news(acc, xs.push(x)) == push_news(push_new(acc, x), xs.push(x).drop_first()));
        assert(push_news(push_new(acc, x), Seq::<Seq<char>>::empty()) == push_new(acc, x));
        assert(push_news(acc, xs) == acc);
    } else {
        assert(xs.push(x)[0] == xs[0]);
        assert(xs.push(x).drop_first() =~= xs.drop_first().push(x));
        lemma_push_news_snoc(push_new(acc, xs[0]), xs.drop_first(), x);
        assert(push_news(acc, xs.push(x)) == push_news(push_new(acc, xs[0]), xs.drop_first().push(
            x)));
        assert(push_news(acc, xs) == push_news(push_new(acc, xs[0]), xs.drop_first()));
    }
}

} // verus!
