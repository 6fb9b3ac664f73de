//! The directory graph: one node per known id, with the derived child edges.
//! Gives the graph its mathematical reading, including the walk-repeat
//! predicate that characterises when the path walk runs into a cycle, and
//! the reachability predicate that ties cached paths to child edges.
use vstd::prelude::*;

verus! {

use vstd::seq_lib::*;
use vstd::set_lib::*;
use crate::records::{
    FolderRecord, rec_has, rec_at, rec_idx, rec_parent_of, appears, records_distinct,
    lemma_rec_idx_is, kids, id_list, lemma_id_list_no_dup, lemma_id_list_appears, find_record,
    contains_str, collect_ids,
};

/// The mathematical reading of one node.
pub ghost struct GNode {
    pub id: Seq<char>,
    pub name: Seq<char>,
    pub parents: Seq<Seq<char>>,
    pub children: Seq<Seq<char>>,
}

/// One node of the directory graph. A node synthesized for an id only seen
/// as somebody's parent carries the sentinel name until a record for it
/// arrives; its `children` are derived from the other records' parent lists.
#[derive(Clone, Debug)]
pub struct FileNode {
    pub id: String,
    pub name: String,
    pub parents: Vec<String>,
    pub children: Vec<String>,
}

impl View for FileNode {
    type V = GNode;

    open spec fn view(&self) -> GNode {
        GNode {
            id: self.id@,
            name: self.name@,
            parents: self.parents.deep_view(),
            children: self.children.deep_view(),
        }
    }
}

/// The graph model of a node list.
pub open spec fn gm(g: Seq<FileNode>) -> Seq<GNode> {
    g.map_values(|n: FileNode| n@)
}

pub open spec fn g_has(g: Seq<GNode>, id: Seq<char>) -> bool {
    exists|i: int| 0 <= i < g.len() && #[trigger] g[i].id == id
}

pub open spec fn g_idx(g: Seq<GNode>, id: Seq<char>) -> int {
    choose|i: int| 0 <= i < g.len() && #[trigger] g[i].id == id
}

/// The node carrying this id (meaningful when ids are distinct).
pub open spec fn g_node(g: Seq<GNode>, id: Seq<char>) -> GNode {
    g[g_idx(g, id)]
}

pub open spec fn g_distinct(g: Seq<GNode>) -> bool {
    forall|i: int, j: int| 0 <= i < j < g.len() ==> g[i].id != g[j].id
}

/// Every id referenced by an edge is itself a node: no dangling references.
pub open spec fn g_closed(g: Seq<GNode>) -> bool {
    &&& forall|i: int, k: int|
        0 <= i < g.len() && 0 <= k < g[i].children.len() ==> g_has(g, #[trigger] g[i].children[k])
    &&& forall|i: int, k: int|
        0 <= i < g.len() && 0 <= k < g[i].parents.len() ==> g_has(g, #[trigger] g[i].parents[k])
}

pub open spec fn g_ids(g: Seq<GNode>) -> Seq<Seq<char>> {
    g.map_values(|n: GNode| n.id)
}

pub proof fn lemma_g_idx_is(g: Seq<GNode>, id: Seq<char>, k: int)
    requires
        g_distinct(g),
        0 <= k < g.len(),
        g[k].id == id,
    ensures
        g_idx(g, id) == k,
        g_node(g, id) == g[k],
{
    assert(g_has(g, id));
    let i = g_idx(g, id);
    if i < k {
        assert(g[i].id != g[k].id);
    } else if k < i {
        assert(g[k].id != g[i].id);
    }
}

/// Whether a depth-first walk from `id` that already passed through
/// `visited` must run into a repeated node: either `id` itself repeats, or
/// some child's walk does. This is exactly the condition under which the
/// path walk reports a cycle.
pub open spec fn dirty(g: Seq<GNode>, id: Seq<char>, visited: Set<Seq<char>>) -> bool
    decreases g.len() - visited.len()
        when visited.finite() && visited.subset_of(g_ids(g).to_set()) && g_distinct(g)
        via dirty_decreases
{
    if visited.contains(id) {
        true
    } else if !g_has(g, id) {
        false
    } else {
        exists|k: int|
            0 <= k < g_node(g, id).children.len() && dirty(g, g_node(g, id).children[k],
                visited.insert(id))
    }
}

#[via_fn]
proof fn dirty_decreases(g: Seq<GNode>, id: Seq<char>, visited: Set<Seq<char>>) {
    broadcast use vstd::set::group_set_axioms;

    if !visited.contains(id) && g_has(g, id) {
        lemma_visited_le(g, visited);
        assert(g_ids(g)[g_idx(g, id)] == id);
        assert(g_ids(g).contains(id));
        assert(g_ids(g).to_set().contains(id));
        lemma_visited_le(g, visited.insert(id));
    }
}

/// A set of ids of graph nodes is no larger than the graph.
pub proof fn lemma_visited_le(g: Seq<GNode>, visited: Set<Seq<char>>)
    requires
        visited.finite(),
        visited.subset_of(g_ids(g).to_set()),
    ensures
        visited.len() <= g.len(),
{
    broadcast use vstd::seq_lib::seq_to_set_is_finite;

    g_ids(g).lemma_cardinality_of_set();
    lemma_len_subset(visited, g_ids(g).to_set());
}

/// Whether following child edges from `cur` along the segment names reaches
/// `target`: the sense in which a cache entry is sound.
pub open spec fn path_resolves(
    g: Seq<GNode>,
    cur: Seq<char>,
    segs: Seq<Seq<char>>,
    target: Seq<char>,
) -> bool
    decreases segs.len(),
{
    if segs.len() == 0 {
        cur == target
    } else {
        g_has(g, cur) && exists|k: int|
            0 <= k < g_node(g, cur).children.len() && {
                let c = #[trigger] g_node(g, cur).children[k];
                g_has(g, c) && g_node(g, c).name == segs[0] && path_resolves(g, c,
                    segs.drop_first(), target)
            }
    }
}

/// Whether some walk along child edges from `cur` spells the segment names
/// in `suffix`: the paths the depth-first registration must cover.
pub open spec fn walkable(g: Seq<GNode>, cur: Seq<char>, suffix: Seq<Seq<char>>) -> bool
    decreases suffix.len(),
{
    if suffix.len() == 0 {
        true
    } else {
        g_has(g, cur) && exists|k: int|
            0 <= k < g_node(g, cur).children.len() && {
                let c = #[trigger] g_node(g, cur).children[k];
                g_has(g, c) && g_node(g, c).name == suffix[0] && walkable(g, c,
                    suffix.drop_first())
            }
    }
}

/// A resolving path extends by one child edge.
pub proof fn lemma_path_resolves_extend(
    g: Seq<GNode>,
    root: Seq<char>,
    segs: Seq<Seq<char>>,
    x: Seq<char>,
    c: Seq<char>,
    k: int,
)
    requires
        path_resolves(g, root, segs, x),
        g_has(g, x),
        g_has(g, c),
        0 <= k < g_node(g, x).children.len(),
        g_node(g, x).children[k] == c,
    ensures
        path_resolves(g, root, segs.push(g_node(g, c).name), c),
    decreases segs.len(),
{
    let n = g_node(g, c).name;
    if segs.len() == 0 {
        assert(root == x);
        assert(segs.push(n)[0] == n);
        assert(segs.push(n).drop_first() =~= Seq::<Seq<char>>::empty());
        assert(path_resolves(g, c, segs.push(n).drop_first(), c));
    } else {
        let m = choose|j: int|
            0 <= j < g_node(g, root).children.len() && {
                let d = #[trigger] g_node(g, root).children[j];
                g_has(g, d) && g_node(g, d).name == segs[0] && path_resolves(g, d,
                    segs.drop_first(), x)
            };
        let d = g_node(g, root).children[m];
        lemma_path_resolves_extend(g, d, segs.drop_first(), x, c, k);
        assert(segs.push(n)[0] == segs[0]);
        assert(segs.push(n).drop_first() =~= segs.drop_first().push(n));
        assert(path_resolves(g, d, segs.push(n).drop_first(), c));
    }
}

/// Finds the node carrying `id`, if one does.
pub fn g_find(g: &Vec<FileNode>, id: &String) -> (r: Option<usize>)
    ensures
        r matches Some(k) ==> k < g@.len() && gm(g@)[k as int].id == id@ && g_has(gm(g@), id@),
        r is None ==> !g_has(gm(g@), id@),
{
    let n = g.len();
    let mut i: usize = 0;
    while i < n
        invariant
            n == g@.len(),
            0 <= i <= n,
            forall|j: int| 0 <= j < i ==> gm(g@)[j].id != id@,
        decreases n - i,
    {
        proof {
            assert(gm(g@)[i as int] == g@[i as int]@);
        }
        if g[i].id == *id {
            proof {
                assert(gm(g@)[i as int].id == id@);
                assert(g_has(gm(g@), id@));
            }
            return Some(i);
        }
        i += 1;
    }
    proof {
        assert forall|j: int| 0 <= j < g@.len() implies gm(g@)[j].id != id@ by {}
    }
    None
}

/// The node model that the records prescribe for one id: the record's own
/// name and parents where a record exists, the sentinel placeholder
/// otherwise, and the derived child edges either way.
pub open spec fn node_model(rs: Seq<FolderRecord>, id: Seq<char>) -> GNode {
    GNode {
        id: id,
        name: if rec_has(rs, id) {
            rec_at(rs, id).name@
        } else {
            "Unknown: Parent Insert"@
        },
        parents: if rec_has(rs, id) {
            rec_at(rs, id).parents.deep_view()
        } else {
            Seq::empty()
        },
        children: kids(rs, id),
    }
}

/// The whole graph that the records prescribe, one node per appearing id,
/// in first-appearance order.
pub open spec fn spec_graph(rs: Seq<FolderRecord>) -> Seq<GNode> {
    id_list(rs).map_values(|id: Seq<char>| node_model(rs, id))
}

/// Builds the node for one id from the records.
fn build_node(records: &Vec<FolderRecord>, id: &String) -> (r: FileNode)
    requires
        records_distinct(records@),
    ensures
        r@ == node_model(records@, id@),
{
    let mut name: String;
    let mut parents: Vec<String>;
    match find_record(records, id) {
        Some(k) => {
            name = records[k].name.clone();
            parents = records[k].parents.clone();
            proof {
                lemma_rec_idx_is(records@, id@, k as int);
                assert(parents.deep_view() =~= records@[k as int].parents.deep_view());
            }
        },
        None => {
            name = "Unknown: Parent Insert".to_owned();
            parents = Vec::new();
            proof {
                assert(parents.deep_view() =~= Seq::<Seq<char>>::empty());
            }
        },
    }
    let mut children: Vec<String> = Vec::new();
    let n = records.len();
    let mut i: usize = 0;
    while i < n
        invariant
            n == records@.len(),
            0 <= i <= n,
            children.deep_view() == kids(records@.take(i as int), id@),
        decreases n - i,
    {
        let ghost prefix = records@.take(i as int);
        proof {
            assert(records@.take(i + 1).drop_last() =~= prefix);
            assert(records@.take(i + 1).last() == records@[i as int]);
        }
        let ghost before = children.deep_view();
        if contains_str(&records[i].parents, id) {
            let cloned = records[i].id.clone();
            children.push(cloned);
            proof {
                assert(children.deep_view() =~= before.push(records@[i as int].id@));
                assert(children.deep_view() =~= before + seq![records@[i as int].id@]);
            }
        } else {
            proof {
                assert(children.deep_view() =~= before + Seq::<Seq<char>>::empty());
            }
        }
        i += 1;
    }
    proof {
        assert(records@.take(n as int) =~= records@);
    }
    let node = FileNode { id: id.clone(), name, parents, children };
    node
}

/// Builds the whole graph from the records: one node per appearing id.
pub fn build_graph(records: &Vec<FolderRecord>) -> (r: Vec<FileNode>)
    requires
        records_distinct(records@),
    ensures
        gm(r@) == spec_graph(records@),
{
    let ids = collect_ids(records);
    let mut g: Vec<FileNode> = Vec::new();
    let n = ids.len();
    let mut i: usize = 0;
    while i < n
        invariant
            n == ids@.len(),
            0 <= i <= n,
            ids.deep_view() == id_list(records@),
            records_distinct(records@),
            gm(g@) =~= id_list(records@).take(i as int).map_values(
                |id: Seq<char>| node_model(records@, id),
            ),
        decreases n - i,
    {
        let node = build_node(records, &ids[i]);
        let ghost before = gm(g@);
        g.push(node);
        proof {
            assert(ids.deep_view()[i as int] == ids@[i as int]@);
            assert(gm(g@) =~= before.push(node@));
            assert(gm(g@) =~= id_list(records@).take(i + 1).map_values(
                |id: Seq<char>| node_model(records@, id),
            )) by {
                let f = |id: Seq<char>| node_model(records@, id);
                let t0 = id_list(records@).take(i as int);
                let t1 = id_list(records@).take(i + 1);
                assert(t1.map_values(f).len() == t1.len());
                assert(forall|j: int| 0 <= j < i ==> t1.map_values(f)[j] == t0.map_values(f)[j]);
                assert(t1.map_values(f)[i as int] == f(id_list(records@)[i as int]));
            }
        }
        i += 1;
    }
    proof {
        assert(id_list(records@).take(n as int) =~= id_list(records@));
    }
    g
}

/// The prescribed graph is distinct, closed, and holds exactly the
/// appearing ids; each node reads as `node_model` prescribes.
pub proof fn lemma_spec_graph_shape(rs: Seq<FolderRecord>)
    requires
        records_distinct(rs),
    ensures
        g_distinct(spec_graph(rs)),
        g_closed(spec_graph(rs)),
        forall|id: Seq<char>| g_has(spec_graph(rs), id) <==> appears(rs, id),
        forall|id: Seq<char>|
            appears(rs, id) ==> g_node(spec_graph(rs), id) == #[trigger] node_model(rs, id),
{
    let g = spec_graph(rs);
    lemma_id_list_no_dup(rs);
    assert(forall|i: int| 0 <= i < g.len() ==> g[i] == node_model(rs, id_list(rs)[i]));
    assert(forall|i: int| 0 <= i < g.len() ==> (#[trigger] g[i]).id == id_list(rs)[i]);
    assert(g_distinct(g)) by {
        assert(forall|i: int, j: int|
            0 <= i < j < id_list(rs).len() ==> id_list(rs)[i] != id_list(rs)[j]);
    }
    assert forall|id: Seq<char>| g_has(g, id) <==> appears(rs, id) by {
        lemma_id_list_appears(rs, id);
        if appears(rs, id) {
            let i = choose|i: int| 0 <= i < id_list(rs).len() && id_list(rs)[i] == id;
            assert(g[i].id == id);
        }
        if g_has(g, id) {
            let i = g_idx(g, id);
            assert(id_list(rs)[i] == id);
            assert(id_list(rs).contains(id));
        }
    }
    assert forall|id: Seq<char>| appears(rs, id) implies g_node(g, id) == #[trigger] node_model(
        rs,
        id,
    ) by {
        lemma_id_list_appears(rs, id);
        let i = choose|i: int| 0 <= i < id_list(rs).len() && id_list(rs)[i] == id;
        assert(g[i].id == id);
        lemma_g_idx_is(g, id, i);
    }
    assert(g_closed(g)) by {
        assert forall|i: int, k: int|
            0 <= i < g.len() && 0 <= k < g[i].children.len() implies g_has(
            g,
            #[trigger] g[i].children[k],
        ) by {
            let id = id_list(rs)[i];
            assert(g[i].children == kids(rs, id));
            lemma_kids_appear(rs, id, g[i].children[k]);
        }
        assert forall|i: int, k: int|
            0 <= i < g.len() && 0 <= k < g[i].parents.len() implies g_has(
            g,
            #[trigger] g[i].parents[k],
        ) by {
            let id = id_list(rs)[i];
            if rec_has(rs, id) {
                assert(g[i].parents == rec_at(rs, id).parents.deep_view());
                let r = rec_at(rs, id);
                let ri = rec_idx(rs, id);
                assert(rs[ri].parents.deep_view().contains(rs[ri].parents.deep_view()[k]));
                assert(rec_parent_of(rs, g[i].parents[k]));
            }
        }
    }
}

/// Every derived child id is a record's own id, so it appears.
pub proof fn lemma_kids_appear(rs: Seq<FolderRecord>, id: Seq<char>, c: Seq<char>)
    requires
        kids(rs, id).contains(c),
    ensures
        rec_has(rs, c),
        appears(rs, c),
    decreases rs.len(),
{
    if rs.len() == 0 {
    } else {
        let prev = rs.drop_last();
        if kids(prev, id).contains(c) {
            lemma_kids_appear(prev, id, c);
            let i = rec_idx(prev, c);
            assert(rs[i].id@ == c);
        } else {
            assert(rs.last().parents.deep_view().contains(id) && c == rs.last().id@) by {
                let k = kids(rs, id);
                let kp = kids(prev, id);
                let i = choose|i: int| 0 <= i < k.len() && k[i] == c;
                if i < kp.len() {
                    assert(kp[i] == c);
                } else {
                    assert(rs.last().parents.deep_view().contains(id));
                    assert(k[i] == rs.last().id@);
                }
            }
            assert(rs[rs.len() - 1].id@ == c);
        }
    }
}

/// Every derived child edge is mutual: `c` is a child of `id` exactly when
/// `c`'s record lists `id` among its parents.
pub proof fn lemma_kids_iff(rs: Seq<FolderRecord>, id: Seq<char>, c: Seq<char>)
    requires
        records_distinct(rs),
    ensures
        kids(rs, id).contains(c) <==> rec_has(rs, c) && rec_at(rs, c).parents.deep_view().contains(
            id,
        ),
    decreases rs.len(),
{
    if rs.len() == 0 {
    } else {
        let prev = rs.drop_last();
        lemma_kids_iff(prev, id, c);
        let k = kids(rs, id);
        let kp = kids(prev, id);
        let tail_in = rs.last().parents.deep_view().contains(id);
        assert(k.contains(c) <==> kp.contains(c) || (tail_in && c == rs.last().id@)) by {
            if k.contains(c) {
                let i = choose|i: int| 0 <= i < k.len() && k[i] == c;
                if i < kp.len() {
                    assert(kp[i] == c);
                } else {
                    assert(tail_in && k[i] == rs.last().id@);
                }
            }
            if kp.contains(c) {
                let i = choose|i: int| 0 <= i < kp.len() && kp[i] == c;
                assert(k[i] == c);
            }
            if tail_in && c == rs.last().id@ {
                assert(k[kp.len() as int] == rs.last().id@);
            }
        }
        assert(rec_has(rs, c) <==> rec_has(prev, c) || c == rs.last().id@) by {
            if rec_has(rs, c) {
                let i = rec_idx(rs, c);
                if i < rs.len() - 1 {
                    assert(prev[i].id@ == c);
                }
            }
            if rec_has(prev, c) {
                let i = rec_idx(prev, c);
                assert(rs[i].id@ == c);
            }
            assert(rs[rs.len() - 1].id@ == rs.last().id@);
        }
        if rec_has(prev, c) {
            let i = rec_idx(prev, c);
            assert(rs[i].id@ == c);
            lemma_rec_idx_is(rs, c, i);
            lemma_rec_idx_is(prev, c, i);
            assert(rec_at(rs, c) == rec_at(prev, c));
            assert(c != rs.last().id@) by {
                assert(rs[i].id@ != rs[rs.len() - 1].id@);
            }
        } else if c == rs.last().id@ {
            lemma_rec_idx_is(rs, c, rs.len() - 1);
            assert(rec_at(rs, c) == rs.last());
            assert(!kp.contains(c)) by {
                if kp.contains(c) {
                    lemma_kids_appear(prev, id, c);
                }
            }
        }
    }
}

/// Makes sure a node for `id` exists, synthesizing a placeholder — the
/// sentinel name and no edges — if none does; a graph that already holds the
/// id is left exactly as it came.
pub fn g_ensure_node(g: &mut Vec<FileNode>, id: &String)
    requires
        g_distinct(gm(old(g)@)),
        g_closed(gm(old(g)@)),
    ensures
        g_distinct(gm(final(g)@)),
        g_closed(gm(final(g)@)),
        g_has(gm(final(g)@), id@),
        forall|x: Seq<char>| g_has(gm(old(g)@), x) ==> g_has(gm(final(g)@), x),
        forall|x: Seq<char>| g_has(gm(final(g)@), x) ==> g_has(gm(old(g)@), x) || x == id@,
        g_has(gm(old(g)@), id@) ==> final(g)@ == old(g)@,
        !g_has(gm(old(g)@), id@) ==> g_node(gm(final(g)@), id@) == (GNode {
            id: id@,
            name: "Unknown: Parent Insert"@,
            parents: Seq::empty(),
            children: Seq::empty(),
        }),
        forall|x: Seq<char>|
            g_has(gm(old(g)@), x) ==> g_node(gm(final(g)@), x) == g_node(gm(old(g)@), x),
{
    match g_find(g, id) {
        Some(_) => {},
        None => {
            let node = FileNode {
                id: id.clone(),
                name: "Unknown: Parent Insert".to_owned(),
                parents: Vec::new(),
                children: Vec::new(),
            };
            let ghost old_gm = gm(g@);
            g.push(node);
            proof {
                let new_gm = gm(g@);
                assert(forall|i: int| 0 <= i < old_gm.len() ==> new_gm[i] == old_gm[i]);
                assert(new_gm[old_gm.len() as int].id == id@);
                assert(new_gm[old_gm.len() as int].children.len() == 0) by {
                    assert(new_gm[old_gm.len() as int].children =~= Seq::<Seq<char>>::empty());
                }
                assert(new_gm[old_gm.len() as int].parents.len() == 0) by {
                    assert(new_gm[old_gm.len() as int].parents =~= Seq::<Seq<char>>::empty());
                }
                assert(new_gm[old_gm.len() as int].name == "Unknown: Parent Insert"@);
                assert(new_gm[old_gm.len() as int].parents =~= Seq::<Seq<char>>::empty());
                assert(new_gm[old_gm.len() as int].children =~= Seq::<Seq<char>>::empty());
                assert forall|x: Seq<char>| g_has(new_gm, x) implies g_has(old_gm, x) || x
                    == id@ by {
                    let i = g_idx(new_gm, x);
                    if i < old_gm.len() {
                        assert(old_gm[i].id == x);
                    }
                }
                assert(g_distinct(new_gm));
                lemma_g_idx_is(new_gm, id@, old_gm.len() as int);
                assert(g_node(new_gm, id@) == (GNode {
                    id: id@,
                    name: "Unknown: Parent Insert"@,
                    parents: Seq::empty(),
                    children: Seq::empty(),
                }));
                assert forall|x: Seq<char>| g_has(old_gm, x) implies g_node(new_gm, x) == g_node(
                    old_gm,
                    x,
                ) by {
                    let i = g_idx(old_gm, x);
                    assert(old_gm[i].id == x);
                    assert(new_gm[i] == old_gm[i]);
                    lemma_g_idx_is(new_gm, x, i);
                }
                assert(g_closed(new_gm)) by {
                    assert forall|i: int, k: int|
                        0 <= i < new_gm.len() && 0 <= k < new_gm[i].children.len() implies g_has(
                        new_gm,
                        #[trigger] new_gm[i].children[k],
                    ) by {
                        if i < old_gm.len() {
                            assert(old_gm[i].children[k] == new_gm[i].children[k]);
                            assert(g_has(old_gm, old_gm[i].children[k]));
                        }
                    }
                    assert forall|i: int, k: int|
                        0 <= i < new_gm.len() && 0 <= k < new_gm[i].parents.len() implies g_has(
                        new_gm,
                        #[trigger] new_gm[i].parents[k],
                    ) by {
                        if i < old_gm.len() {
                            assert(old_gm[i].parents[k] == new_gm[i].parents[k]);
                            assert(g_has(old_gm, old_gm[i].parents[k]));
                        }
                    }
                }
            }
        },
    }
}

/// Overwrites the node for `r.id` with the record's name and parents,
/// keeping the derived child edges it already gathered; every other node is
/// left exactly as it came.
pub fn g_set_record(g: &mut Vec<FileNode>, r: &FolderRecord)
    requires
        g_distinct(gm(old(g)@)),
        g_closed(gm(old(g)@)),
        g_has(gm(old(g)@), r.id@),
        forall|x: Seq<char>| r.parents.deep_view().contains(x) ==> g_has(gm(old(g)@), x),
    ensures
        g_distinct(gm(final(g)@)),
        g_closed(gm(final(g)@)),
        forall|x: Seq<char>| g_has(gm(final(g)@), x) <==> g_has(gm(old(g)@), x),
        g_node(gm(final(g)@), r.id@) == (GNode {
            id: r.id@,
            name: r.name@,
            parents: r.parents.deep_view(),
            children: g_node(gm(old(g)@), r.id@).children,
        }),
        forall|x: Seq<char>|
            x != r.id@ && g_has(gm(old(g)@), x) ==> g_node(gm(final(g)@), x) == g_node(
                gm(old(g)@),
                x,
            ),
{
    let k = match g_find(g, &r.id) {
        Some(k) => k,
        None => {
            proof {
                assert(false);
            }
            return ;
        },
    };
    let mut node = g.remove(k);
    let ghost mid = g@;
    node.name = r.name.clone();
    node.parents = r.parents.clone();
    let kept = node;
    g.insert(k, kept);
    proof {
        let old_gm = gm(old(g)@);
        let new_gm = gm(g@);
        assert(new_gm.len() == old_gm.len());
        assert forall|j: int| 0 <= j < new_gm.len() implies (new_gm[j].id == old_gm[j].id && (j
            != k ==> new_gm[j] == old_gm[j])) by {
            if j < k as int {
            } else if j == k as int {
            } else {
                assert(mid[j - 1] == old(g)@[j]);
            }
        }
        assert(new_gm[k as int].children == old_gm[k as int].children);
        assert(new_gm[k as int].parents =~= r.parents.deep_view());
        assert(new_gm[k as int].name == r.name@);
        assert(new_gm[k as int].id == r.id@);
        assert(g_distinct(new_gm));
        lemma_g_idx_is(old_gm, r.id@, k as int);
        lemma_g_idx_is(new_gm, r.id@, k as int);
        assert(g_node(new_gm, r.id@) == (GNode {
            id: r.id@,
            name: r.name@,
            parents: r.parents.deep_view(),
            children: g_node(old_gm, r.id@).children,
        }));
        assert forall|x: Seq<char>|
            x != r.id@ && g_has(old_gm, x) implies g_node(new_gm, x) == g_node(old_gm, x) by {
            let i = g_idx(old_gm, x);
            assert(old_gm[i].id == x);
            assert(i != k as int) by {
                assert(old_gm[k as int].id == r.id@);
            }
            assert(new_gm[i] == old_gm[i]);
            lemma_g_idx_is(new_gm, x, i);
        }
        assert forall|x: Seq<char>| g_has(new_gm, x) <==> g_has(old_gm, x) by {
            if g_has(new_gm, x) {
                let i = g_idx(new_gm, x);
                assert(old_gm[i].id == x);
            }
            if g_has(old_gm, x) {
                let i = g_idx(old_gm, x);
                assert(new_gm[i].id == x);
            }
        }
        assert(g_closed(new_gm)) by {
            assert forall|i: int, kk: int|
                0 <= i < new_gm.len() && 0 <= kk < new_gm[i].children.len() implies g_has(
                new_gm,
                #[trigger] new_gm[i].children[kk],
            ) by {
                assert(new_gm[i].children == old_gm[i].children);
                assert(g_has(old_gm, old_gm[i].children[kk]));
            }
            assert forall|i: int, kk: int|
                0 <= i < new_gm.len() && 0 <= kk < new_gm[i].parents.len() implies g_has(
                new_gm,
                #[trigger] new_gm[i].parents[kk],
            ) by {
                if i == k as int {
                    assert(r.parents.deep_view().contains(new_gm[i].parents[kk]));
                } else {
                    assert(new_gm[i].parents == old_gm[i].parents);
                    assert(g_has(old_gm, old_gm[i].parents[kk]));
                }
            }
        }
    }
}

/// Registers one derived child edge on the parent node: the child's id goes
/// behind the parent's existing children, everything else staying as it came.
pub fn g_append_child(g: &mut Vec<FileNode>, pid: &String, cid: &String)
    requires
        g_distinct(gm(old(g)@)),
        g_closed(gm(old(g)@)),
        g_has(gm(old(g)@), pid@),
        g_has(gm(old(g)@), cid@),
    ensures
        g_distinct(gm(final(g)@)),
        g_closed(gm(final(g)@)),
        forall|x: Seq<char>| g_has(gm(final(g)@), x) <==> g_has(gm(old(g)@), x),
        g_node(gm(final(g)@), pid@) == (GNode {
            id: pid@,
            name: g_node(gm(old(g)@), pid@).name,
            parents: g_node(gm(old(g)@), pid@).parents,
            children: g_node(gm(old(g)@), pid@).children.push(cid@),
        }),
        forall|x: Seq<char>|
            x != pid@ && g_has(gm(old(g)@), x) ==> g_node(gm(final(g)@), x) == g_node(
                gm(old(g)@),
                x,
            ),
{
    let k = match g_find(g, pid) {
        Some(k) => k,
        None => {
            proof {
                assert(false);
            }
            return ;
        },
    };
    let mut node = g.remove(k);
    let ghost mid = g@;
    node.children.push(cid.clone());
    let kept = node;
    g.insert(k, kept);
    proof {
        let old_gm = gm(old(g)@);
        let new_gm = gm(g@);
        assert(new_gm.len() == old_gm.len());
        assert forall|j: int| 0 <= j < new_gm.len() implies (new_gm[j].id == old_gm[j].id && (j
            != k ==> new_gm[j] == old_gm[j])) by {
            if j < k as int {
            } else if j == k as int {
            } else {
                assert(mid[j - 1] == old(g)@[j]);
            }
        }
        assert(new_gm[k as int].parents == old_gm[k as int].parents);
        assert(new_gm[k as int].children =~= old_gm[k as int].children.push(cid@));
        assert(new_gm[k as int].name == old_gm[k as int].name);
        assert(new_gm[k as int].id == pid@);
        assert(g_distinct(new_gm));
        lemma_g_idx_is(old_gm, pid@, k as int);
        lemma_g_idx_is(new_gm, pid@, k as int);
        assert(g_node(new_gm, pid@) == (GNode {
            id: pid@,
            name: g_node(old_gm, pid@).name,
            parents: g_node(old_gm, pid@).parents,
            children: g_node(old_gm, pid@).children.push(cid@),
        }));
        assert forall|x: Seq<char>|
            x != pid@ && g_has(old_gm, x) implies g_node(new_gm, x) == g_node(old_gm, x) by {
            let i = g_idx(old_gm, x);
            assert(old_gm[i].id == x);
            assert(i != k as int) by {
                assert(old_gm[k as int].id == pid@);
            }
            assert(new_gm[i] == old_gm[i]);
            lemma_g_idx_is(new_gm, x, i);
        }
        assert forall|x: Seq<char>| g_has(new_gm, x) <==> g_has(old_gm, x) by {
            if g_has(new_gm, x) {
                let i = g_idx(new_gm, x);
                assert(old_gm[i].id == x);
            }
            if g_has(old_gm, x) {
                let i = g_idx(old_gm, x);
                assert(new_gm[i].id == x);
            }
        }
        assert(g_closed(new_gm)) by {
            assert forall|i: int, kk: int|
                0 <= i < new_gm.len() && 0 <= kk < new_gm[i].children.len() implies g_has(
                new_gm,
                #[trigger] new_gm[i].children[kk],
            ) by {
                if i == k as int {
                    if kk < old_gm[i].children.len() {
                        assert(new_gm[i].children[kk] == old_gm[i].children[kk]);
                        assert(g_has(old_gm, old_gm[i].children[kk]));
                    } else {
                        assert(new_gm[i].children[kk] == cid@);
                    }
                } else {
                    assert(new_gm[i].children == old_gm[i].children);
                    assert(g_has(old_gm, old_gm[i].children[kk]));
                }
            }
            assert forall|i: int, kk: int|
                0 <= i < new_gm.len() && 0 <= kk < new_gm[i].parents.len() implies g_has(
                new_gm,
                #[trigger] new_gm[i].parents[kk],
            ) by {
                assert(new_gm[i].parents == old_gm[i].parents);
                assert(g_has(old_gm, old_gm[i].parents[kk]));
            }
        }
    }
}

} // verus!
