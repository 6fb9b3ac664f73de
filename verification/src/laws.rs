//! The library's laws: what the walk's repeat detection means in terms of
//! genuine cycles, and how cached paths round-trip through resolution.
use vstd::prelude::*;

verus! {

use crate::cache::{FileCache, pc_has, pc_at, pc_idx, key_ok};
use crate::graph::{GNode, g_has, g_idx, g_node, g_distinct, g_ids, dirty, spec_graph,
    lemma_visited_le};
use crate::paths::{all_clean, path_of, join_path, lemma_join_path_push};
use crate::graph::{node_model, lemma_spec_graph_shape, lemma_kids_iff};
use crate::records::{
    FolderRecord, records_distinct, candidates, appears, rec_has, rec_at, rec_parent_of, id_list,
    is_candidate,
    lemma_id_list_appears, lemma_candidates_among_complete, lemma_candidates_among_sub,
};
use crate::resolve::{chain, lemma_chain_last};

/// A walk in the graph: at least one node, every node present, and each
/// consecutive pair joined by a child edge.
pub open spec fn is_walk(g: Seq<GNode>, w: Seq<Seq<char>>) -> bool {
    &&& w.len() >= 1
    &&& forall|i: int| 0 <= i < w.len() ==> g_has(g, #[trigger] w[i])
    &&& forall|i: int|
        0 <= i < w.len() - 1 ==> (#[trigger] g_node(g, w[i]).children).contains(w[i + 1])
}

/// The walk ends on a node it already passed: the witness of a cycle.
pub open spec fn repeats(w: Seq<Seq<char>>) -> bool {
    exists|j: int| 0 <= j < w.len() - 1 && #[trigger] w[j] == w[w.len() - 1]
}

/// If the walk-repeat predicate holds, some concrete walk from `id` ends in
/// the visited set or on one of its own nodes.
pub proof fn lemma_dirty_implies_repeat_walk(g: Seq<GNode>, id: Seq<char>, vis: Set<Seq<char>>)
    requires
        g_distinct(g),
        vis.finite(),
        vis.subset_of(g_ids(g).to_set()),
        dirty(g, id, vis),
    ensures
        exists|w: Seq<Seq<char>>|
            #![trigger is_walk(g, w)]
            is_walk(g, w) && w[0] == id && (vis.contains(w[w.len() - 1]) || repeats(w)),
    decreases g.len() - vis.len(),
{
    broadcast use vstd::set::group_set_axioms;
    broadcast use vstd::seq_lib::seq_to_set_is_finite;

    if vis.contains(id) {
        let w = seq![id];
        assert(g_ids(g).to_set().contains(id));
        assert(g_ids(g).contains(id));
        assert(g_has(g, id)) by {
            let i = choose|i: int| 0 <= i < g_ids(g).len() && g_ids(g)[i] == id;
            assert(g[i].id == id);
        }
        assert(is_walk(g, w));
        assert(vis.contains(w[w.len() - 1]));
    } else {
        assert(g_has(g, id));
        let k = choose|k: int|
            0 <= k < g_node(g, id).children.len() && dirty(g, g_node(g, id).children[k],
                vis.insert(id));
        let c = g_node(g, id).children[k];
        assert(g_ids(g)[g_idx(g, id)] == id);
        assert(g_ids(g).contains(id));
        assert(g_ids(g).to_set().contains(id));
        lemma_visited_le(g, vis.insert(id));
        lemma_dirty_implies_repeat_walk(g, c, vis.insert(id));
        let w2 = choose|w2: Seq<Seq<char>>|
            #![trigger is_walk(g, w2)]
            is_walk(g, w2) && w2[0] == c && (vis.insert(id).contains(w2[w2.len() - 1]) || repeats(
                w2,
            ));
        assert(is_walk(g, w2) && w2[0] == c && (vis.insert(id).contains(w2[w2.len() - 1])
            || repeats(w2)));
        let w = seq![id] + w2;
        assert(is_walk(g, w)) by {
            assert(forall|i: int| 0 <= i < w2.len() ==> w[i + 1] == #[trigger] w2[i]);
            assert(w[0] == id);
            assert forall|i: int| 0 <= i < w.len() - 1 implies (#[trigger] g_node(
                g,
                w[i],
            ).children).contains(w[i + 1]) by {
                if i == 0 {
                    assert(g_node(g, id).children.contains(c)) by {
                        assert(g_node(g, id).children[k] == c);
                    }
                } else {
                    assert(0 <= i - 1 < w2.len() - 1);
                    assert(w[i] == w2[i - 1] && w[i + 1] == w2[i]);
                    assert(is_walk(g, w2));
                    assert((g_node(g, w2[i - 1]).children).contains(w2[i]));
                }
            }
        }
        let last = w[w.len() - 1];
        assert(last == w2[w2.len() - 1]);
        if vis.insert(id).contains(w2[w2.len() - 1]) {
            if w2[w2.len() - 1] == id {
                assert(w[0] == w[w.len() - 1]);
                assert(repeats(w));
            } else {
                assert(vis.contains(last));
            }
        } else {
            assert(repeats(w2));
            let j = choose|j: int| 0 <= j < w2.len() - 1 && #[trigger] w2[j] == w2[w2.len() - 1];
            assert(w[j + 1] == w[w.len() - 1]);
            assert(repeats(w));
        }
        assert(is_walk(g, w) && w[0] == id && (vis.contains(w[w.len() - 1]) || repeats(w)));
    }
}

/// Any walk that ends in the visited set or on one of its own nodes forces
/// the walk-repeat predicate.
pub proof fn lemma_repeat_walk_implies_dirty(
    g: Seq<GNode>,
    vis: Set<Seq<char>>,
    w: Seq<Seq<char>>,
)
    requires
        g_distinct(g),
        vis.finite(),
        vis.subset_of(g_ids(g).to_set()),
        is_walk(g, w),
        vis.contains(w[w.len() - 1]) || repeats(w),
    ensures
        dirty(g, w[0], vis),
    decreases w.len(),
{
    broadcast use vstd::set::group_set_axioms;

    let id = w[0];
    if vis.contains(id) {
        assert(dirty(g, id, vis));
    } else {
        assert(g_has(g, id));
        assert(w.len() >= 2) by {
            if w.len() == 1 {
                assert(w[w.len() - 1] == id);
                if repeats(w) {
                    let j = choose|j: int| 0 <= j < w.len() - 1 && #[trigger] w[j] == w[w.len() - 1];
                    assert(false);
                }
                assert(vis.contains(id));
                assert(false);
            }
        }
        let w2 = w.drop_first();
        let c = w2[0];
        assert(forall|i: int| 0 <= i < w2.len() ==> w2[i] == #[trigger] w[i + 1]);
        assert(is_walk(g, w2)) by {
            assert forall|i: int| 0 <= i < w2.len() - 1 implies (#[trigger] g_node(
                g,
                w2[i],
            ).children).contains(w2[i + 1]) by {
                assert(g_node(g, w[i + 1]).children.contains(w[i + 2]));
            }
        }
        assert(g_ids(g)[g_idx(g, id)] == id);
        assert(g_ids(g).contains(id));
        assert(g_ids(g).to_set().contains(id));
        let vis2 = vis.insert(id);
        assert(vis2.finite() && vis2.subset_of(g_ids(g).to_set()));
        assert(w2[w2.len() - 1] == w[w.len() - 1]);
        assert(vis2.contains(w2[w2.len() - 1]) || repeats(w2)) by {
            if vis.contains(w[w.len() - 1]) {
            } else {
                let j = choose|j: int| 0 <= j < w.len() - 1 && #[trigger] w[j] == w[w.len() - 1];
                if j == 0 {
                    assert(w[w.len() - 1] == id);
                    assert(vis2.contains(w2[w2.len() - 1]));
                } else {
                    assert(w2[j - 1] == w2[w2.len() - 1]);
                    assert(repeats(w2));
                }
            }
        }
        lemma_repeat_walk_implies_dirty(g, vis2, w2);
        assert(dirty(g, c, vis2));
        assert(dirty(g, id, vis)) by {
            assert(g_node(g, id).children.contains(c)) by {
                assert(g_node(g, w[0]).children.contains(w[1]));
            }
            let k = choose|k: int|
                0 <= k < g_node(g, id).children.len() && g_node(g, id).children[k] == c;
            assert(dirty(g, g_node(g, id).children[k], vis.insert(id)));
        }
    }
}

/// The build walk reports a cycle exactly when some walk from the inferred
/// root returns to one of its own nodes. In particular a record set whose
/// parent references are acyclic never fails with a cycle report, and one
/// with a cycle reachable from the root always does.
pub proof fn lemma_cycle_report_iff_repeat_walk(rs: Seq<FolderRecord>)
    requires
        records_distinct(rs),
        candidates(rs).len() >= 1,
    ensures
        dirty(spec_graph(rs), candidates(rs)[0], Set::empty()) <==> exists|w: Seq<Seq<char>>|
            #![trigger is_walk(spec_graph(rs), w)]
            is_walk(spec_graph(rs), w) && w[0] == candidates(rs)[0] && repeats(w),
{
    broadcast use vstd::set::group_set_axioms;

    let g = spec_graph(rs);
    let root = candidates(rs)[0];
    crate::graph::lemma_spec_graph_shape(rs);
    let vis = Set::<Seq<char>>::empty();
    assert(vis.finite() && vis.subset_of(g_ids(g).to_set()));
    if dirty(g, root, vis) {
        lemma_dirty_implies_repeat_walk(g, root, vis);
        let w = choose|w: Seq<Seq<char>>|
            #![trigger is_walk(g, w)]
            is_walk(g, w) && w[0] == root && (vis.contains(w[w.len() - 1]) || repeats(w));
        assert(!vis.contains(w[w.len() - 1]));
        assert(is_walk(g, w) && w[0] == root && repeats(w));
    }
    if exists|w: Seq<Seq<char>>| #![trigger is_walk(g, w)] is_walk(g, w) && w[0] == root
        && repeats(w) {
        let w = choose|w: Seq<Seq<char>>|
            #![trigger is_walk(g, w)]
            is_walk(g, w) && w[0] == root && repeats(w);
        lemma_repeat_walk_implies_dirty(g, vis, w);
    }
}

/// Two walks compose: a walk to a node continues with any walk from it. A
/// cycle anywhere a walk from the root can reach therefore yields a
/// repeating walk from the root.
pub proof fn lemma_walks_compose(g: Seq<GNode>, u: Seq<Seq<char>>, c: Seq<Seq<char>>)
    requires
        is_walk(g, u),
        is_walk(g, c),
        u[u.len() - 1] == c[0],
    ensures
        is_walk(g, u + c.drop_first()),
        (u + c.drop_first()).len() == u.len() + c.len() - 1,
        (u + c.drop_first())[0] == u[0],
        (u + c.drop_first())[(u + c.drop_first()).len() - 1] == c[c.len() - 1],
{
    let w = u + c.drop_first();
    assert(forall|i: int| 0 <= i < u.len() ==> w[i] == #[trigger] u[i]);
    assert(forall|i: int| 0 <= i < c.drop_first().len() ==> w[u.len() + i] == #[trigger] c[i + 1]);
    assert forall|i: int| 0 <= i < w.len() implies g_has(g, #[trigger] w[i]) by {
        if i < u.len() {
        } else {
            assert(w[i] == c[i - u.len() + 1]);
        }
    }
    assert forall|i: int| 0 <= i < w.len() - 1 implies (#[trigger] g_node(g, w[i]).children)
        .contains(w[i + 1]) by {
        if i < u.len() - 1 {
            assert(g_node(g, u[i]).children.contains(u[i + 1]));
        } else if i == u.len() - 1 {
            assert(w[i] == c[0]);
            assert(w[i + 1] == c[1]);
            assert(g_node(g, c[0]).children.contains(c[1]));
        } else {
            assert(w[i] == c[i - u.len() + 1]);
            assert(w[i + 1] == c[i - u.len() + 2]);
            assert(g_node(g, c[i - u.len() + 1]).children.contains(c[i - u.len() + 2]));
        }
    }
    if c.len() == 1 {
        assert(w =~= u);
        assert(w[w.len() - 1] == u[u.len() - 1]);
    } else {
        assert(w[w.len() - 1] == c[c.len() - 1]);
    }
}

/// Round trip: a cached path resolves through the cache alone to the id it
/// maps to — the chain walk meets a cache hit at every step, so no lookup is
/// ever consulted for it.
pub proof fn lemma_cached_path_round_trip(c: FileCache, p: Seq<char>)
    requires
        c.wf(),
        c.cached(p),
    ensures
        exists|segs: Seq<Seq<char>>|
            all_clean(segs) && p == path_of(segs) && chain(
                c.path_cache@,
                c.root(),
                seq!['/'],
                segs,
            ) == Some(c.cache_at(p)),
{
    let i = pc_idx(c.path_cache@, p);
    assert(c.path_cache@[i].0@ == p);
    assert(key_ok(c.path_cache@, p));
    let segs = choose|segs: Seq<Seq<char>>|
        all_clean(segs) && p == path_of(segs) && (forall|j: int|
            1 <= j <= segs.len() ==> pc_has(c.path_cache@, path_of(#[trigger] segs.take(j))));
    let empty_segs = Seq::<Seq<char>>::empty();
    assert(path_of(empty_segs) =~= seq!['/']);
    lemma_closure_chain(c.path_cache@, c.root(), empty_segs, segs);
    if segs.len() == 0 {
        assert(p == path_of(empty_segs));
        assert(p =~= seq!['/']);
        assert(chain(c.path_cache@, c.root(), seq!['/'], segs) == Some(c.root()));
        assert(c.cache_at(p) == c.root());
    } else {
        lemma_chain_last(c.path_cache@, c.root(), empty_segs, segs);
        assert(empty_segs + segs =~= segs);
        assert(chain(c.path_cache@, c.root(), seq!['/'], segs) == Some(pc_at(c.path_cache@, p)));
    }
}

/// A prefix-closed key's chain walk hits the cache at every step.
pub proof fn lemma_closure_chain(
    c: Seq<(String, String)>,
    cur: Seq<char>,
    ds: Seq<Seq<char>>,
    ss: Seq<Seq<char>>,
)
    requires
        all_clean(ds),
        all_clean(ss),
        forall|j: int| 1 <= j <= ss.len() ==> pc_has(c, path_of(ds + #[trigger] ss.take(j))),
    ensures
        chain(c, cur, path_of(ds), ss) is Some,
    decreases ss.len(),
{
    if ss.len() == 0 {
    } else {
        let cand = join_path(path_of(ds), ss[0]);
        lemma_join_path_push(ds, ss[0]);
        assert(cand == path_of(ds.push(ss[0])));
        assert(ds.push(ss[0]) =~= ds + ss.take(1));
        assert(pc_has(c, cand));
        let ds2 = ds.push(ss[0]);
        assert(all_clean(ds2)) by {
            assert(forall|i: int| 0 <= i < ds.len() ==> ds2[i] == #[trigger] ds[i]);
            assert(ds2[ds.len() as int] == ss[0]);
        }
        assert(all_clean(ss.drop_first())) by {
            assert(forall|i: int|
                0 <= i < ss.drop_first().len() ==> ss.drop_first()[i] == #[trigger] ss[i + 1]);
        }
        assert forall|j: int|
            1 <= j <= ss.drop_first().len() implies pc_has(
            c,
            path_of(ds2 + #[trigger] ss.drop_first().take(j)),
        ) by {
            assert(ds2 + ss.drop_first().take(j) =~= ds + ss.take(j + 1));
        }
        lemma_closure_chain(c, pc_at(c, cand), ds2, ss.drop_first());
    }
}

/// The derived edges are mutual: in the graph the records prescribe, `c` is
/// a child of `id` exactly when `c`'s own record lists `id` as a parent.
pub proof fn lemma_children_iff_parent_listed(rs: Seq<FolderRecord>, id: Seq<char>, c: Seq<char>)
    requires
        records_distinct(rs),
        appears(rs, id),
    ensures
        g_node(spec_graph(rs), id).children.contains(c) <==> rec_has(rs, c) && rec_at(
            rs,
            c,
        ).parents.deep_view().contains(id),
{
    lemma_spec_graph_shape(rs);
    assert(g_node(spec_graph(rs), id) == node_model(rs, id));
    lemma_kids_iff(rs, id, c);
}

/// The root is the unique parentless node: in a record set with exactly one
/// root candidate, a node of the prescribed graph has no parents exactly
/// when it is the inferred root.
pub proof fn lemma_unique_parentless_root(rs: Seq<FolderRecord>, id: Seq<char>)
    requires
        records_distinct(rs),
        candidates(rs).len() == 1,
        appears(rs, id),
    ensures
        g_node(spec_graph(rs), id).parents.len() == 0 <==> id == candidates(rs)[0],
{
    lemma_spec_graph_shape(rs);
    assert(g_node(spec_graph(rs), id) == node_model(rs, id));
    lemma_id_list_appears(rs, id);
    // A node has no parents exactly when its id is a root candidate.
    assert(node_model(rs, id).parents.len() == 0 <==> is_candidate(rs, id)) by {
        if rec_has(rs, id) {
        } else {
            assert(rec_parent_of(rs, id));
        }
    }
    if is_candidate(rs, id) {
        lemma_candidates_among_complete(rs, id_list(rs), id);
        let i = choose|i: int| 0 <= i < candidates(rs).len() && candidates(rs)[i] == id;
        assert(i == 0);
    }
    if id == candidates(rs)[0] {
        assert(candidates(rs).contains(id)) by {
            assert(candidates(rs)[0] == id);
        }
        lemma_candidates_among_sub(rs, id_list(rs), id);
    }
}

} // verus!
