//! The file cache: the validated directory graph together with the path
//! cache that maps absolute paths to resource ids. Builds both from a flat
//! record list, inferring the unique root and walking the graph depth-first
//! to register every addressable path alias.
use vstd::prelude::*;

verus! {

use vstd::seq_lib::*;
use vstd::string::*;
use crate::errors::BuildError;
use crate::graph::{
    GNode, FileNode, gm, g_has, g_idx, g_node, g_distinct, g_closed, g_ids, lemma_g_idx_is, dirty,
    lemma_visited_le, path_resolves, g_find, spec_graph, build_graph, lemma_spec_graph_shape,
    walkable, lemma_path_resolves_extend,
};
use crate::paths::{
    clean_seg, all_clean, path_of, lemma_join_path_push, lemma_path_of_injective, join_path_str,
    is_clean_name,
};
use crate::records::{
    FolderRecord, records_distinct, id_list, candidates, lemma_id_list_appears, contains_str,
    collect_ids, root_candidates, lemma_candidates_among_sub,
};

/// Whether the entry list holds the key.
pub open spec fn pc_has(c: Seq<(String, String)>, k: Seq<char>) -> bool {
    exists|i: int| 0 <= i < c.len() && #[trigger] c[i].0@ == k
}

pub open spec fn pc_idx(c: Seq<(String, String)>, k: Seq<char>) -> int {
    choose|i: int| 0 <= i < c.len() && #[trigger] c[i].0@ == k
}

/// The id the key maps to (meaningful when keys are distinct).
pub open spec fn pc_at(c: Seq<(String, String)>, k: Seq<char>) -> Seq<char> {
    c[pc_idx(c, k)].1@
}

pub open spec fn pc_distinct(c: Seq<(String, String)>) -> bool {
    forall|i: int, j: int| 0 <= i < j < c.len() ==> c[i].0@ != c[j].0@
}

/// A key is a clean segmentation whose every proper prefix is itself cached.
pub open spec fn key_ok(c: Seq<(String, String)>, k: Seq<char>) -> bool {
    exists|segs: Seq<Seq<char>>|
        all_clean(segs) && k == path_of(segs) && (forall|j: int|
            1 <= j <= segs.len() ==> pc_has(c, path_of(#[trigger] segs.take(j))))
}

/// Every cached key is well-formed and prefix-closed.
pub open spec fn pc_closed(c: Seq<(String, String)>) -> bool {
    forall|i: int| 0 <= i < c.len() ==> key_ok(c, #[trigger] c[i].0@)
}

/// Every cached id resolves from the root along child edges whose names
/// spell the key: the cache is a sound view of the graph.
pub open spec fn cache_sound(c: Seq<(String, String)>, g: Seq<GNode>, root: Seq<char>) -> bool {
    forall|i: int|
        0 <= i < c.len() ==> exists|segs: Seq<Seq<char>>|
            all_clean(segs) && (#[trigger] c[i]).0@ == path_of(segs) && path_resolves(g, root,
                segs, c[i].1@)
}

/// Every cached id is a node of the graph.
pub open spec fn pc_values_in(c: Seq<(String, String)>, g: Seq<GNode>) -> bool {
    forall|i: int| 0 <= i < c.len() ==> g_has(g, (#[trigger] c[i]).1@)
}

pub proof fn lemma_pc_idx_is(c: Seq<(String, String)>, k: Seq<char>, i: int)
    requires
        pc_distinct(c),
        0 <= i < c.len(),
        c[i].0@ == k,
    ensures
        pc_idx(c, k) == i,
        pc_at(c, k) == c[i].1@,
{
    assert(pc_has(c, k));
    let j = pc_idx(c, k);
    if j < i {
        assert(c[j].0@ != c[i].0@);
    } else if i < j {
        assert(c[i].0@ != c[j].0@);
    }
}

/// A prefix-closed key stays so when the cache only grows.
pub proof fn lemma_key_ok_mono(c1: Seq<(String, String)>, c2: Seq<(String, String)>, k: Seq<char>)
    requires
        key_ok(c1, k),
        forall|q: Seq<char>| pc_has(c1, q) ==> pc_has(c2, q),
    ensures
        key_ok(c2, k),
{
    let segs = choose|segs: Seq<Seq<char>>|
        all_clean(segs) && k == path_of(segs) && (forall|j: int|
            1 <= j <= segs.len() ==> pc_has(c1, path_of(#[trigger] segs.take(j))));
    assert(forall|j: int| 1 <= j <= segs.len() ==> pc_has(c2, path_of(#[trigger] segs.take(j))));
}

/// Finds the entry with the given key, if one exists.
pub fn pc_find(c: &Vec<(String, String)>, k: &String) -> (r: Option<usize>)
    ensures
        r matches Some(i) ==> i < c@.len() && c@[i as int].0@ == k@ && pc_has(c@, k@),
        r is None ==> !pc_has(c@, k@),
{
    let n = c.len();
    let mut i: usize = 0;
    while i < n
        invariant
            n == c@.len(),
            0 <= i <= n,
            forall|j: int| 0 <= j < i ==> #[trigger] c@[j].0@ != k@,
        decreases n - i,
    {
        if c[i].0 == *k {
            return Some(i);
        }
        i += 1;
    }
    None
}

/// Looks a key up, handing back a copy of the mapped id.
pub fn pc_get(c: &Vec<(String, String)>, k: &String) -> (r: Option<String>)
    requires
        pc_distinct(c@),
    ensures
        r matches Some(v) ==> pc_has(c@, k@) && v@ == pc_at(c@, k@),
        r is None <==> !pc_has(c@, k@),
{
    match pc_find(c, k) {
        Some(i) => {
            proof {
                lemma_pc_idx_is(c@, k@, i as int);
            }
            Some(c[i].1.clone())
        },
        None => None,
    }
}

/// Inserts or updates a key: the later write wins on a collision.
pub fn pc_upsert(c: &mut Vec<(String, String)>, k: &String, v: &String)
    requires
        pc_distinct(old(c)@),
    ensures
        pc_distinct(final(c)@),
        pc_has(final(c)@, k@),
        pc_at(final(c)@, k@) == v@,
        forall|q: Seq<char>| pc_has(old(c)@, q) ==> pc_has(final(c)@, q),
        forall|q: Seq<char>| pc_has(final(c)@, q) ==> pc_has(old(c)@, q) || q == k@,
        forall|q: Seq<char>|
            q != k@ && pc_has(old(c)@, q) ==> pc_at(final(c)@, q) == pc_at(old(c)@, q),
        forall|i: int|
            0 <= i < final(c)@.len() ==> ((i < old(c)@.len() && #[trigger] final(c)@[i] == old(
                c,
            )@[i]) || (final(c)@[i].0@ == k@ && final(c)@[i].1@ == v@)),
        forall|i: int| 0 <= i < old(c)@.len() ==> final(c)@[i].0@ == old(c)@[i].0@,
        final(c)@.len() == old(c)@.len() || final(c)@.len() == old(c)@.len() + 1,
{
    match pc_find(c, k) {
        Some(i) => {
            proof {
                lemma_pc_idx_is(old(c)@, k@, i as int);
            }
            let pair = c.remove(i);
            let ghost mid = c@;
            c.insert(i, (pair.0, v.clone()));
            proof {
                assert(c@.len() == old(c)@.len());
                assert forall|j: int| 0 <= j < c@.len() implies (c@[j].0@ == old(c)@[j].0@ && (j
                    != i ==> c@[j] == old(c)@[j])) by {
                    if j < i {
                    } else if j == i {
                    } else {
                        assert(mid[j - 1] == old(c)@[j]);
                    }
                }
                assert(pc_distinct(c@));
                assert(c@[i as int].0@ == k@ && c@[i as int].1@ == v@);
                lemma_pc_idx_is(c@, k@, i as int);
                assert forall|q: Seq<char>|
                    q != k@ && pc_has(old(c)@, q) implies pc_at(c@, q) == pc_at(old(c)@, q) by {
                    let j = pc_idx(old(c)@, q);
                    assert(old(c)@[j].0@ == q);
                    assert(j != i);
                    assert(c@[j] == old(c)@[j]);
                    lemma_pc_idx_is(c@, q, j);
                }
                assert forall|q: Seq<char>| pc_has(old(c)@, q) implies pc_has(c@, q) by {
                    let j = pc_idx(old(c)@, q);
                    assert(c@[j].0@ == q);
                }
            }
        },
        None => {
            c.push((k.clone(), v.clone()));
            proof {
                assert(forall|j: int| 0 <= j < old(c)@.len() ==> c@[j] == old(c)@[j]);
                assert(c@[old(c)@.len() as int].0@ == k@);
                assert(c@[old(c)@.len() as int].1@ == v@);
                assert(pc_distinct(c@));
                lemma_pc_idx_is(c@, k@, old(c)@.len() as int);
                assert forall|q: Seq<char>|
                    q != k@ && pc_has(old(c)@, q) implies pc_at(c@, q) == pc_at(old(c)@, q) by {
                    let j = pc_idx(old(c)@, q);
                    assert(c@[j].0@ == q);
                    lemma_pc_idx_is(c@, q, j);
                }
                assert forall|q: Seq<char>| pc_has(old(c)@, q) implies pc_has(c@, q) by {
                    let j = pc_idx(old(c)@, q);
                    assert(c@[j].0@ == q);
                }
            }
        },
    }
}

/// Registers one path alias, keeping every cache invariant.
fn cache_register(
    cache: &mut Vec<(String, String)>,
    key: &String,
    val: &String,
    Ghost(g): Ghost<Seq<GNode>>,
    Ghost(root): Ghost<Seq<char>>,
    Ghost(segs): Ghost<Seq<Seq<char>>>,
)
    requires
        pc_distinct(old(cache)@),
        pc_closed(old(cache)@),
        cache_sound(old(cache)@, g, root),
        pc_values_in(old(cache)@, g),
        all_clean(segs),
        segs.len() >= 1,
        key@ == path_of(segs),
        forall|j: int| 1 <= j < segs.len() ==> pc_has(old(cache)@, path_of(#[trigger] segs.take(j))),
        path_resolves(g, root, segs, val@),
        g_has(g, val@),
    ensures
        pc_distinct(final(cache)@),
        pc_closed(final(cache)@),
        cache_sound(final(cache)@, g, root),
        pc_values_in(final(cache)@, g),
        pc_has(final(cache)@, key@),
        pc_at(final(cache)@, key@) == val@,
        forall|q: Seq<char>| pc_has(old(cache)@, q) ==> pc_has(final(cache)@, q),
        forall|q: Seq<char>| pc_has(final(cache)@, q) ==> pc_has(old(cache)@, q) || q == key@,
        forall|q: Seq<char>|
            q != key@ && pc_has(old(cache)@, q) ==> pc_at(final(cache)@, q) == pc_at(
                old(cache)@,
                q,
            ),
{
    pc_upsert(cache, key, val);
    proof {
        let c1 = cache@;
        let c0 = old(cache)@;
        assert(segs.take(segs.len() as int) =~= segs);
        assert(key_ok(c1, key@)) by {
            assert(forall|j: int|
                1 <= j <= segs.len() ==> pc_has(c1, path_of(#[trigger] segs.take(j))));
        }
        assert(pc_closed(c1)) by {
            assert forall|i: int| 0 <= i < c1.len() implies key_ok(c1, #[trigger] c1[i].0@) by {
                if c1[i].0@ == key@ {
                } else {
                    assert(i < c0.len() && c1[i] == c0[i]);
                    lemma_key_ok_mono(c0, c1, c0[i].0@);
                }
            }
        }
        assert(cache_sound(c1, g, root)) by {
            assert forall|i: int| 0 <= i < c1.len() implies exists|s2: Seq<Seq<char>>|
                all_clean(s2) && (#[trigger] c1[i]).0@ == path_of(s2) && path_resolves(g, root,
                    s2, c1[i].1@) by {
                if i < c0.len() && c1[i] == c0[i] {
                    assert(exists|s2: Seq<Seq<char>>|
                        all_clean(s2) && (#[trigger] c0[i]).0@ == path_of(s2) && path_resolves(g,
                            root, s2, c0[i].1@));
                } else {
                    assert(c1[i].0@ == key@ && c1[i].1@ == val@);
                    assert(all_clean(segs) && c1[i].0@ == path_of(segs) && path_resolves(g, root,
                        segs, c1[i].1@));
                }
            }
        }
        assert(pc_values_in(c1, g)) by {
            assert forall|i: int| 0 <= i < c1.len() implies g_has(g, (#[trigger] c1[i]).1@) by {
                if i < c0.len() && c1[i] == c0[i] {
                } else {
                    assert(c1[i].1@ == val@);
                }
            }
        }
    }
}

/// Well-formed walk bookkeeping: the branch stack has no repeats and only
/// holds ids of graph nodes.
pub open spec fn vis_ok(g: Seq<GNode>, d: Seq<Seq<char>>) -> bool {
    d.no_duplicates() && forall|x: Seq<char>| d.contains(x) ==> g_has(g, x)
}

/// The branch stack is no larger than the graph.
pub proof fn lemma_vis_bounds(g: Seq<GNode>, d: Seq<Seq<char>>)
    requires
        vis_ok(g, d),
    ensures
        d.to_set().finite(),
        d.to_set().subset_of(g_ids(g).to_set()),
        d.to_set().len() == d.len(),
        d.len() <= g.len(),
{
    broadcast use vstd::seq_lib::seq_to_set_is_finite;
    broadcast use vstd::set::group_set_axioms;

    assert forall|x: Seq<char>| d.to_set().contains(x) implies g_ids(g).to_set().contains(x) by {
        assert(d.contains(x));
        assert(g_has(g, x));
        let i = g_idx(g, x);
        assert(g_ids(g)[i] == x);
        assert(g_ids(g).contains(x));
    }
    d.unique_seq_to_set();
    lemma_visited_le(g, d.to_set());
}

/// Pushing one element extends the set view by it.
pub proof fn lemma_push_to_set(d: Seq<Seq<char>>, x: Seq<char>)
    ensures
        d.push(x).to_set() == d.to_set().insert(x),
{
    broadcast use vstd::set::group_set_axioms;

    assert(d.push(x).to_set() =~= d.to_set().insert(x)) by {
        assert forall|y: Seq<char>| #[trigger] d.push(x).contains(y) implies d.contains(y) || y
            == x by {
            let i = choose|i: int| 0 <= i < d.push(x).len() && d.push(x)[i] == y;
            if i < d.len() {
                assert(d[i] == y);
            }
        }
        assert forall|y: Seq<char>| d.contains(y) || y == x implies #[trigger] d.push(x).contains(
            y,
        ) by {
            if d.contains(y) {
                let i = choose|i: int| 0 <= i < d.len() && d[i] == y;
                assert(d.push(x)[i] == y);
            } else {
                assert(d.push(x)[d.len() as int] == y);
            }
        }
    }
}

/// Walks the subtree under `id`, registering into the cache every alias
/// reached over cleanly named children, and failing out on the first node
/// revisited along the current branch.
///
/// `reg` says whether the current prefix is itself addressable; below a node
/// whose name cannot serve as a path segment, the walk still checks for
/// cycles but registers nothing.
#[verifier::rlimit(60)]
fn walk_register(
    g: &Vec<FileNode>,
    id: &String,
    prefix: &String,
    reg: bool,
    visited: &mut Vec<String>,
    cache: &mut Vec<(String, String)>,
    Ghost(root): Ghost<Seq<char>>,
    Ghost(segs): Ghost<Seq<Seq<char>>>,
) -> (r: Result<(), BuildError>)
    requires
        g_distinct(gm(g@)),
        g_closed(gm(g@)),
        g_has(gm(g@), id@),
        vis_ok(gm(g@), old(visited).deep_view()),
        pc_distinct(old(cache)@),
        pc_closed(old(cache)@),
        cache_sound(old(cache)@, gm(g@), root),
        pc_values_in(old(cache)@, gm(g@)),
        reg ==> all_clean(segs) && prefix@ == path_of(segs) && pc_has(old(cache)@, prefix@)
            && path_resolves(gm(g@), root, segs, id@) && g_has(gm(g@), root),
    ensures
        final(visited).deep_view() == old(visited).deep_view(),
        (r is Ok) <==> !dirty(gm(g@), id@, old(visited).deep_view().to_set()),
        r matches Err(e) ==> e is CycleDetected,
        pc_distinct(final(cache)@),
        pc_closed(final(cache)@),
        cache_sound(final(cache)@, gm(g@), root),
        pc_values_in(final(cache)@, gm(g@)),
        forall|q: Seq<char>| pc_has(old(cache)@, q) ==> pc_has(final(cache)@, q),
        forall|q: Seq<char>|
            pc_has(old(cache)@, q) && q.len() <= prefix@.len() ==> pc_at(final(cache)@, q)
                == pc_at(old(cache)@, q),
        forall|q: Seq<char>|
            pc_has(final(cache)@, q) && !pc_has(old(cache)@, q) ==> q.len() > prefix@.len(),
        reg && r is Ok ==> forall|suffix: Seq<Seq<char>>|
            all_clean(suffix) && walkable(gm(g@), id@, suffix) ==> pc_has(
                final(cache)@,
                path_of(segs + suffix),
            ),
    decreases g@.len() - old(visited)@.len(),
{
    let ghost g0 = gm(g@);
    let ghost vis0 = visited.deep_view().to_set();
    proof {
        lemma_vis_bounds(g0, visited.deep_view());
        broadcast use vstd::set::group_set_axioms;

    }
    if contains_str(visited, id) {
        proof {
            assert(vis0.contains(id@));
            assert(dirty(g0, id@, vis0));
        }
        return Err(BuildError::CycleDetected(id.clone()));
    }
    proof {
        assert(!vis0.contains(id@));
    }
    let node_i = match g_find(g, id) {
        Some(i) => i,
        None => {
            proof {
                assert(false);
            }
            return Err(BuildError::DanglingReference(id.clone()));
        },
    };
    let ghost nd = g_node(g0, id@);
    proof {
        lemma_g_idx_is(g0, id@, node_i as int);
        assert(g0[node_i as int] == g@[node_i as int]@);
        assert(nd == g@[node_i as int]@);
        assert(nd.children == g@[node_i as int].children.deep_view());
    }
    let ghost dv0 = visited.deep_view();
    visited.push(id.clone());
    proof {
        assert(visited.deep_view() =~= dv0.push(id@));
        assert(vis_ok(g0, visited.deep_view())) by {
            assert(visited.deep_view().no_duplicates()) by {
                assert(forall|i: int| 0 <= i < dv0.len() ==> dv0[i] != id@) by {
                    assert(!dv0.contains(id@));
                }
            }
            assert forall|x: Seq<char>| visited.deep_view().contains(x) implies g_has(g0, x) by {
                let i = choose|i: int|
                    0 <= i < visited.deep_view().len() && visited.deep_view()[i] == x;
                if i < dv0.len() {
                    assert(dv0.contains(x));
                } else {
                    assert(x == id@);
                }
            }
        }
        lemma_push_to_set(dv0, id@);
        lemma_vis_bounds(g0, visited.deep_view());
    }
    let ghost vis1 = vis0.insert(id@);
    let ghost cache0 = cache@;
    proof {
        if reg {
            // The cached prefix is prefix-closed; by injectivity its witness
            // segmentation is exactly `segs`.
            let i = pc_idx(cache0, prefix@);
            assert(pc_has(cache0, prefix@));
            assert(cache0[i].0@ == prefix@);
            assert(key_ok(cache0, prefix@));
            let segs2 = choose|segs2: Seq<Seq<char>>|
                all_clean(segs2) && prefix@ == path_of(segs2) && (forall|j: int|
                    1 <= j <= segs2.len() ==> pc_has(cache0, path_of(#[trigger] segs2.take(j))));
            lemma_path_of_injective(segs2, segs);
            assert(segs2 == segs);
        }
    }
    let n = g[node_i].children.len();
    let mut k: usize = 0;
    while k < n
        invariant
            g_distinct(g0),
            g_closed(g0),
            g0 == gm(g@),
            g_has(g0, id@),
            !vis0.contains(id@),
            node_i < g@.len(),
            nd == g_node(g0, id@),
            nd == g@[node_i as int]@,
            nd.children == g@[node_i as int].children.deep_view(),
            n == nd.children.len(),
            0 <= k <= n,
            visited.deep_view() == dv0.push(id@),
            dv0 == old(visited).deep_view(),
            cache0 == old(cache)@,
            vis_ok(g0, visited.deep_view()),
            visited.deep_view().to_set() == vis1,
            vis1 == vis0.insert(id@),
            dv0.to_set() == vis0,
            vis_ok(g0, dv0),
            pc_distinct(cache@),
            pc_closed(cache@),
            cache_sound(cache@, g0, root),
            pc_values_in(cache@, g0),
            forall|q: Seq<char>| pc_has(cache0, q) ==> pc_has(cache@, q),
            forall|q: Seq<char>|
                pc_has(cache0, q) && q.len() <= prefix@.len() ==> pc_at(cache@, q) == pc_at(
                    cache0,
                    q,
                ),
            forall|q: Seq<char>|
                pc_has(cache@, q) && !pc_has(cache0, q) ==> q.len() > prefix@.len(),
            forall|j: int| 0 <= j < k ==> !dirty(g0, nd.children[j], vis1),
            reg ==> all_clean(segs) && prefix@ == path_of(segs) && pc_has(cache0, prefix@)
                && path_resolves(g0, root, segs, id@) && g_has(g0, root),
            reg ==> forall|j: int|
                1 <= j <= segs.len() ==> pc_has(cache@, path_of(#[trigger] segs.take(j))),
            reg ==> forall|suffix: Seq<Seq<char>>|
                (all_clean(suffix) && suffix.len() >= 1 && exists|j: int|
                    0 <= j < k && {
                        let c = #[trigger] nd.children[j];
                        g_has(g0, c) && g_node(g0, c).name == suffix[0] && walkable(g0, c,
                            suffix.drop_first())
                    }) ==> pc_has(cache@, path_of(segs + suffix)),
        decreases n - k,
    {
        let ghost cbeg = cache@;
        let child_id = &g[node_i].children[k];
        proof {
            assert(child_id@ == nd.children[k as int]);
            assert(g_has(g0, child_id@)) by {
                assert(g0[node_i as int].children[k as int] == child_id@);
            }
        }
        let child_i = match g_find(g, child_id) {
            Some(i) => i,
            None => {
                proof {
                    assert(false);
                }
                let _ = visited.pop();
                return Err(BuildError::DanglingReference(child_id.clone()));
            },
        };
        let ghost cn = g_node(g0, child_id@);
        proof {
            lemma_g_idx_is(g0, child_id@, child_i as int);
            assert(cn == g@[child_i as int]@);
        }
        let child_name = &g[child_i].name;
        proof {
            assert(child_name@ == cn.name);
        }
        let candidate = join_path_str(prefix.as_str(), child_name.as_str());
        proof {
            assert(candidate@.len() >= prefix@.len()) by {
                if prefix@.len() <= 1 {
                } else {
                }
            }
        }
        let reg_child = reg && is_clean_name(child_name.as_str());
        let ghost segs_c = segs.push(child_name@);
        if reg_child {
            proof {
                lemma_join_path_push(segs, child_name@);
                assert(candidate@ == path_of(segs_c));
                assert(all_clean(segs_c)) by {
                    assert(forall|i: int|
                        0 <= i < segs.len() ==> segs_c[i] == #[trigger] segs[i]);
                    assert(segs_c[segs.len() as int] == child_name@);
                }
                lemma_path_resolves_extend(g0, root, segs, id@, child_id@, k as int);
                assert(path_resolves(g0, root, segs_c, child_id@));
                assert(candidate@.len() > prefix@.len()) by {
                    assert(child_name@.len() >= 1);
                }
                assert forall|j: int| 1 <= j < segs_c.len() implies pc_has(
                    cache@,
                    path_of(#[trigger] segs_c.take(j)),
                ) by {
                    assert(segs_c.take(j) =~= segs.take(j));
                }
            }
            cache_register(cache, &candidate, child_id, Ghost(g0), Ghost(root), Ghost(segs_c));
            proof {
                assert(pc_has(cache@, candidate@) && pc_at(cache@, candidate@) == child_id@);
            }
        }
        let ghost cache_pre = cache@;
        proof {
            lemma_vis_bounds(g0, visited.deep_view());
            assert(visited.deep_view().len() == visited@.len());
            assert(visited@.len() == dv0.len() + 1);
            assert(visited@.len() <= g@.len());
            assert(old(visited)@.len() == dv0.len());
            assert(g@.len() - visited@.len() < g@.len() - old(visited)@.len());
        }
        let res = walk_register(g, child_id, &candidate, reg_child, visited, cache, Ghost(root),
            Ghost(segs_c));
        match res {
            Ok(()) => {
                proof {
                    assert(!dirty(g0, child_id@, vis1));
                    assert(forall|j: int| 0 <= j < k + 1 ==> !dirty(g0, nd.children[j], vis1))
                        by {
                        assert(nd.children[k as int] == child_id@);
                    }
                }
            },
            Err(e) => {
                proof {
                    lemma_vis_bounds(g0, dv0);
                    assert(dirty(g0, child_id@, vis1));
                    assert(dirty(g0, id@, vis0)) by {
                        assert(0 <= k < nd.children.len() && dirty(g0, nd.children[k as int],
                            vis0.insert(id@)));
                    }
                }
                let ghost dv_now = visited.deep_view();
                let ghost pre = visited@;
                let _ = visited.pop();
                proof {
                    assert(dv_now == dv0.push(id@));
                    assert(visited@ =~= pre.subrange(0, pre.len() - 1));
                    assert forall|i: int|
                        0 <= i < visited.deep_view().len() implies visited.deep_view()[i]
                        == dv0[i] by {
                        assert(visited@[i] == pre[i]);
                        assert(dv_now[i] == pre[i]@);
                    }
                    assert(visited.deep_view() =~= dv0);
                }
                return Err(e);
            },
        }
        proof {
            // Compose the cache evolution across the register and the child walk.
            assert(forall|q: Seq<char>| pc_has(cbeg, q) ==> pc_has(cache@, q));
            assert forall|q: Seq<char>|
                pc_has(cache0, q) && q.len() <= prefix@.len() implies pc_at(cache@, q) == pc_at(
                cache0,
                q,
            ) by {
                assert(q.len() <= candidate@.len());
                assert(pc_has(cbeg, q) && pc_at(cbeg, q) == pc_at(cache0, q));
                if reg_child {
                    assert(q != candidate@);
                    assert(pc_at(cache_pre, q) == pc_at(cbeg, q));
                } else {
                    assert(cache_pre == cbeg);
                }
                assert(pc_has(cache_pre, q));
                assert(pc_at(cache@, q) == pc_at(cache_pre, q));
            }
            assert forall|q: Seq<char>|
                pc_has(cache@, q) && !pc_has(cache0, q) implies q.len() > prefix@.len() by {
                if pc_has(cache_pre, q) {
                    if reg_child {
                        assert(q == candidate@ || pc_has(cbeg, q));
                    } else {
                        assert(pc_has(cbeg, q));
                    }
                } else {
                    assert(q.len() > candidate@.len());
                }
            }
            if reg {
                assert(forall|j: int|
                    1 <= j <= segs.len() ==> pc_has(cache@, path_of(#[trigger] segs.take(j))));
                // Completeness: one more child is covered.
                assert forall|suffix: Seq<Seq<char>>|
                    (all_clean(suffix) && suffix.len() >= 1 && exists|j: int|
                        0 <= j < k + 1 && {
                            let c = #[trigger] nd.children[j];
                            g_has(g0, c) && g_node(g0, c).name == suffix[0] && walkable(g0, c,
                                suffix.drop_first())
                        }) implies pc_has(cache@, path_of(segs + suffix)) by {
                    let j = choose|j: int|
                        0 <= j < k + 1 && {
                            let c = #[trigger] nd.children[j];
                            g_has(g0, c) && g_node(g0, c).name == suffix[0] && walkable(g0, c,
                                suffix.drop_first())
                        };
                    if j < k {
                        assert(pc_has(cbeg, path_of(segs + suffix)));
                    } else {
                        // The child just walked covers this suffix.
                        assert(nd.children[j] == child_id@);
                        assert(cn.name == suffix[0]);
                        assert(clean_seg(suffix[0]));
                        assert(reg_child);
                        assert(walkable(g0, child_id@, suffix.drop_first()));
                        assert(all_clean(suffix.drop_first())) by {
                            assert(forall|i: int|
                                0 <= i < suffix.drop_first().len() ==> suffix.drop_first()[i]
                                    == #[trigger] suffix[i + 1]);
                        }
                        assert(pc_has(cache@, path_of(segs_c + suffix.drop_first())));
                        assert(segs_c + suffix.drop_first() =~= segs + suffix) by {
                            assert(suffix =~= seq![suffix[0]] + suffix.drop_first());
                        }
                    }
                }
            }
        }
        k += 1;
    }
    let ghost dv_now = visited.deep_view();
    let ghost pre = visited@;
    let _ = visited.pop();
    proof {
        assert(dv_now == dv0.push(id@));
        assert(visited@ =~= pre.subrange(0, pre.len() - 1));
        assert forall|i: int|
            0 <= i < visited.deep_view().len() implies visited.deep_view()[i] == dv0[i] by {
            assert(visited@[i] == pre[i]);
            assert(dv_now[i] == pre[i]@);
        }
        assert(visited.deep_view() =~= dv0);
        lemma_vis_bounds(g0, dv0);
        assert(!dirty(g0, id@, vis0)) by {
            assert(!vis0.contains(id@));
            assert(g_has(g0, id@));
            assert(forall|j: int| 0 <= j < nd.children.len() ==> !dirty(g0, nd.children[j], vis1));
        }
    }
    proof {
        if reg {
            assert forall|suffix: Seq<Seq<char>>|
                all_clean(suffix) && walkable(g0, id@, suffix) implies pc_has(
                cache@,
                path_of(segs + suffix),
            ) by {
                if suffix.len() == 0 {
                    assert(segs + suffix =~= segs);
                    assert(pc_has(cache@, prefix@));
                } else {
                    let j = choose|j: int|
                        0 <= j < g_node(g0, id@).children.len() && {
                            let c = #[trigger] g_node(g0, id@).children[j];
                            g_has(g0, c) && g_node(g0, c).name == suffix[0] && walkable(g0, c,
                                suffix.drop_first())
                        };
                    assert(0 <= j < k && {
                        let c = nd.children[j];
                        g_has(g0, c) && g_node(g0, c).name == suffix[0] && walkable(g0, c,
                            suffix.drop_first())
                    });
                    assert(suffix.len() >= 1);
                }
            }
        }
    }
    Ok(())
}

/// The directory graph and the path cache over it, as one exclusively owned
/// value: built once from a record list, then extended lazily and only ever
/// grown.
#[derive(Clone, Debug)]
pub struct FileCache {
    pub root_id: String,
    /// One node per known id, with derived child edges, for traversal.
    pub graph_cache: Vec<FileNode>,
    /// Maps each registered absolute path to the id it was reached at.
    pub path_cache: Vec<(String, String)>,
}

impl FileCache {
    /// The graph model.
    pub open spec fn graph(&self) -> Seq<GNode> {
        gm(self.graph_cache@)
    }

    pub open spec fn root(&self) -> Seq<char> {
        self.root_id@
    }

    pub open spec fn cached(&self, p: Seq<char>) -> bool {
        pc_has(self.path_cache@, p)
    }

    pub open spec fn cache_at(&self, p: Seq<char>) -> Seq<char> {
        pc_at(self.path_cache@, p)
    }

    /// Structural well-formedness: distinct node ids, no dangling edge ids,
    /// a root node, distinct prefix-closed cache keys, the root path entry,
    /// and every cached id known to the graph.
    pub open spec fn wf(&self) -> bool {
        &&& g_distinct(self.graph())
        &&& g_closed(self.graph())
        &&& g_has(self.graph(), self.root())
        &&& pc_distinct(self.path_cache@)
        &&& pc_closed(self.path_cache@)
        &&& self.cached(seq!['/'])
        &&& self.cache_at(seq!['/']) == self.root()
        &&& pc_values_in(self.path_cache@, self.graph())
    }

    /// Soundness of the whole cache against the current graph: every entry
    /// resolves from the root along child edges. The initial build
    /// establishes it; a lazy extension keeps the structural invariants but
    /// can outdate entries when the remote data has changed behind them.
    pub open spec fn sound(&self) -> bool {
        cache_sound(self.path_cache@, self.graph(), self.root())
    }

    /// Turns a flat record list into the validated graph and the initial
    /// path cache.
    ///
    /// The root is inferred: it is the unique id that participates while
    /// having no parents, either through its own parentless record or as a
    /// referenced parent with no record. No candidate fails with
    /// `MissingRoot`; several fail with `AmbiguousRoot` carrying them all in
    /// first-appearance order. With a unique candidate, the depth-first walk
    /// from the root registers every addressable path alias, and fails with
    /// `CycleDetected` exactly when a walk from the root revisits a node on
    /// its own branch. Any failure returns no cache at all: a partial,
    /// inconsistent cache is strictly worse than an explicit error.
    pub fn build(records: &Vec<FolderRecord>) -> (r: Result<FileCache, BuildError>)
        requires
            records_distinct(records@),
        ensures
            ({
                let cands = candidates(records@);
                let g = spec_graph(records@);
                &&& ((r matches Err(e) && e is MissingRoot) <==> cands.len() == 0)
                &&& ((r matches Err(e) && e is AmbiguousRoot) <==> cands.len() >= 2)
                &&& (r matches Err(e) ==> (e matches BuildError::AmbiguousRoot(ids)
                    ==> ids.deep_view() == cands))
                &&& ((r matches Err(e) && e is CycleDetected) <==> (cands.len() == 1 && dirty(g,
                    cands[0], Set::empty())))
                &&& (r is Ok <==> (cands.len() == 1 && !dirty(g, cands[0], Set::empty())))
                &&& !(r matches Err(e) && e is DanglingReference)
                &&& (r matches Ok(c) ==> c.root_id@ == cands[0] && c.graph() == g && c.wf()
                    && c.sound() && (forall|suffix: Seq<Seq<char>>|
                    all_clean(suffix) && walkable(g, cands[0], suffix) ==> c.cached(
                        path_of(suffix),
                    )))
            }),
    {
        let ghost gspec = spec_graph(records@);
        let graph = build_graph(records);
        let ids = collect_ids(records);
        let cands = root_candidates(records, &ids);
        proof {
            lemma_spec_graph_shape(records@);
        }
        if cands.len() == 0 {
            return Err(BuildError::MissingRoot);
        }
        if cands.len() >= 2 {
            return Err(BuildError::AmbiguousRoot(cands));
        }
        let root = cands[0].clone();
        proof {
            assert(root@ == candidates(records@)[0]);
            assert(g_has(gspec, root@)) by {
                assert(candidates(records@).contains(root@)) by {
                    assert(candidates(records@)[0] == root@);
                }
                lemma_candidates_among_sub(records@, id_list(records@), root@);
                lemma_id_list_appears(records@, root@);
            }
        }
        let mut cache: Vec<(String, String)> = Vec::new();
        let slash = String::from_str("/");
        proof {
            reveal_strlit("/");
            assert(slash@ =~= seq!['/']);
        }
        cache.push((slash, root.clone()));
        let ghost empty_segs = Seq::<Seq<char>>::empty();
        proof {
            assert(path_of(empty_segs) =~= seq!['/']);
            assert(cache@.len() == 1 && cache@[0].0@ == path_of(empty_segs) && cache@[0].1@
                == root@);
            assert(pc_distinct(cache@));
            assert(pc_has(cache@, path_of(empty_segs)));
            lemma_pc_idx_is(cache@, path_of(empty_segs), 0);
            assert(path_resolves(gspec, root@, empty_segs, root@));
            assert(pc_closed(cache@)) by {
                assert(key_ok(cache@, cache@[0].0@)) by {
                    assert(all_clean(empty_segs));
                    assert(forall|j: int|
                        1 <= j <= empty_segs.len() ==> pc_has(cache@, path_of(
                            #[trigger] empty_segs.take(j))));
                }
            }
            assert(cache_sound(cache@, gspec, root@)) by {
                assert(all_clean(empty_segs) && cache@[0].0@ == path_of(empty_segs)
                    && path_resolves(gspec, root@, empty_segs, cache@[0].1@));
            }
            assert(pc_values_in(cache@, gspec));
        }
        let mut visited: Vec<String> = Vec::new();
        let prefix = String::from_str("/");
        proof {
            assert(prefix@ =~= seq!['/']);
            assert(prefix@ == path_of(empty_segs));
            assert(visited.deep_view() =~= Seq::<Seq<char>>::empty());
            assert(vis_ok(gspec, visited.deep_view()));
            assert(visited.deep_view().to_set() =~= Set::<Seq<char>>::empty()) by {
                broadcast use vstd::set::group_set_axioms;

                assert(forall|x: Seq<char>| !visited.deep_view().contains(x));
            }
        }
        let ghost cache_init = cache@;
        let res = walk_register(&graph, &root, &prefix, true, &mut visited, &mut cache,
            Ghost(root@), Ghost(empty_segs));
        match res {
            Err(e) => {
                proof {
                    assert(dirty(gspec, root@, Set::empty()));
                }
                Err(e)
            },
            Ok(()) => {
                let out = FileCache { root_id: root, graph_cache: graph, path_cache: cache };
                proof {
                    assert(!dirty(gspec, root@, Set::empty()));
                    assert(out.graph() == gspec);
                    assert(out.root() == candidates(records@)[0]);
                    assert(out.cached(seq!['/'])) by {
                        assert(pc_has(cache_init, path_of(empty_segs)));
                    }
                    assert(out.cache_at(seq!['/']) == out.root()) by {
                        assert(path_of(empty_segs).len() <= prefix@.len());
                        assert(pc_at(cache@, path_of(empty_segs)) == pc_at(cache_init, path_of(
                            empty_segs)));
                    }
                    assert(out.wf());
                    assert(out.sound());
                    assert forall|suffix: Seq<Seq<char>>|
                        all_clean(suffix) && walkable(gspec, candidates(records@)[0], suffix)
                        implies out.cached(path_of(suffix)) by {
                        assert(pc_has(cache@, path_of(empty_segs + suffix))) by {
                            assert(walkable(gspec, root@, suffix));
                        }
                        assert(empty_segs + suffix =~= suffix);
                    }
                }
                Ok(out)
            },
        }
    }

    /// The cache before any load: a sentinel root id and nothing known.
    pub fn empty() -> (r: FileCache)
        ensures
            r.root_id@ == "root"@,
            r.graph_cache@.len() == 0,
            r.path_cache@.len() == 0,
    {
        FileCache {
            root_id: "root".to_owned(),
            graph_cache: Vec::new(),
            path_cache: Vec::new(),
        }
    }
}

} // verus!
