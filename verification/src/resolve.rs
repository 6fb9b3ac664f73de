//! Path resolution against the cache, with lazy extension: a missing
//! segment triggers one caller-supplied scoped lookup, whose records are
//! merged into the graph and cache before the segment is retried once.
use vstd::prelude::*;

verus! {

use vstd::string::*;
use crate::cache::{
    FileCache, pc_has, pc_at, pc_idx, pc_distinct, pc_closed, pc_values_in, key_ok,
    lemma_key_ok_mono, pc_get, pc_upsert,
};
use crate::errors::{QueryError, ResolveError};
use crate::graph::{
    FileNode, gm, g_has, g_distinct, g_closed, g_ensure_node, g_set_record, g_append_child,
};
use crate::paths::{
    clean_seg, all_clean, path_of, wf_path_chars, join_path, lemma_join_path_push,
    lemma_path_of_injective, lemma_join_path_right_injective, lemma_sep_join_chars,
    join_path_str, is_clean_name, parse_path,
};
use crate::records::{FolderRecord, contains_str, last_child_named};

/// Follows the cache key by key: starting at `cur` under the directory
/// `prefix`, each segment extends the prefix and must be a cached key, whose
/// mapped id becomes the new position.
pub open spec fn chain(
    c: Seq<(String, String)>,
    cur: Seq<char>,
    prefix: Seq<char>,
    segs: Seq<Seq<char>>,
) -> Option<Seq<char>>
    decreases segs.len(),
{
    if segs.len() == 0 {
        Some(cur)
    } else {
        let cand = join_path(prefix, segs[0]);
        if pc_has(c, cand) {
            chain(c, pc_at(c, cand), cand, segs.drop_first())
        } else {
            None
        }
    }
}

/// Splits a chain walk at any point: the walk over `a + b` is the walk over
/// `a`, continued over `b` from where it arrived.
pub proof fn lemma_chain_app(
    c: Seq<(String, String)>,
    cur: Seq<char>,
    ds: Seq<Seq<char>>,
    a: Seq<Seq<char>>,
    b: Seq<Seq<char>>,
)
    requires
        all_clean(ds),
        all_clean(a),
    ensures
        chain(c, cur, path_of(ds), a + b) == (match chain(c, cur, path_of(ds), a) {
            Some(x) => chain(c, x, path_of(ds + a), b),
            None => None::<Seq<char>>,
        }),
    decreases a.len(),
{
    if a.len() == 0 {
        assert(a + b =~= b);
        assert(ds + a =~= ds);
    } else {
        let cand = join_path(path_of(ds), a[0]);
        lemma_join_path_push(ds, a[0]);
        assert(cand == path_of(ds.push(a[0])));
        assert((a + b)[0] == a[0]);
        assert((a + b).drop_first() =~= a.drop_first() + b);
        if pc_has(c, cand) {
            let ds2 = ds.push(a[0]);
            assert(all_clean(ds2)) by {
                assert(forall|i: int| 0 <= i < ds.len() ==> ds2[i] == #[trigger] ds[i]);
                assert(ds2[ds.len() as int] == a[0]);
                assert(clean_seg(a[0]));
            }
            assert(all_clean(a.drop_first())) by {
                assert(forall|i: int|
                    0 <= i < a.drop_first().len() ==> a.drop_first()[i] == #[trigger] a[i + 1]);
            }
            lemma_chain_app(c, pc_at(c, cand), ds2, a.drop_first(), b);
            assert(ds2 + a.drop_first() =~= ds + a);
        }
    }
}

/// A successful chain walk ends at a cached key for the full path, and its
/// answer is exactly that key's mapped id.
pub proof fn lemma_chain_last(
    c: Seq<(String, String)>,
    cur: Seq<char>,
    ds: Seq<Seq<char>>,
    ss: Seq<Seq<char>>,
)
    requires
        all_clean(ds),
        all_clean(ss),
        ss.len() > 0,
        chain(c, cur, path_of(ds), ss) is Some,
    ensures
        pc_has(c, path_of(ds + ss)),
        chain(c, cur, path_of(ds), ss) == Some(pc_at(c, path_of(ds + ss))),
{
    let a = ss.drop_last();
    let b = seq![ss.last()];
    assert(ss =~= a + b);
    assert(all_clean(a)) by {
        assert(forall|i: int| 0 <= i < a.len() ==> a[i] == #[trigger] ss[i]);
    }
    lemma_chain_app(c, cur, ds, a, b);
    let x = chain(c, cur, path_of(ds), a)->Some_0;
    assert(chain(c, x, path_of(ds + a), b) is Some);
    let cand = join_path(path_of(ds + a), b[0]);
    assert(all_clean(ds + a)) by {
        assert(forall|i: int|
            0 <= i < (ds + a).len() ==> (ds + a)[i] == (if i < ds.len() {
                #[trigger] ds[i]
            } else {
                a[i - ds.len()]
            }));
    }
    lemma_join_path_push(ds + a, b[0]);
    assert((ds + a).push(b[0]) =~= ds + ss);
    assert(pc_has(c, cand));
    assert(b.drop_first() =~= Seq::<Seq<char>>::empty());
    assert(chain(c, pc_at(c, cand), cand, b.drop_first()) == Some(pc_at(c, cand)));
    assert(chain(c, x, path_of(ds + a), b) == Some(pc_at(c, cand)));
}

/// A successful chain walk survives any cache change that keeps the keys up
/// to the full path's length.
pub proof fn lemma_chain_stable(
    c1: Seq<(String, String)>,
    c2: Seq<(String, String)>,
    cur: Seq<char>,
    ds: Seq<Seq<char>>,
    ss: Seq<Seq<char>>,
)
    requires
        all_clean(ds),
        all_clean(ss),
        chain(c1, cur, path_of(ds), ss) is Some,
        forall|q: Seq<char>|
            pc_has(c1, q) && q.len() <= path_of(ds + ss).len() ==> pc_has(c2, q) && pc_at(c2, q)
                == pc_at(c1, q),
    ensures
        chain(c2, cur, path_of(ds), ss) == chain(c1, cur, path_of(ds), ss),
    decreases ss.len(),
{
    if ss.len() == 0 {
    } else {
        let cand = join_path(path_of(ds), ss[0]);
        lemma_join_path_push(ds, ss[0]);
        let ds2 = ds.push(ss[0]);
        assert(all_clean(ds2)) by {
            assert(forall|i: int| 0 <= i < ds.len() ==> ds2[i] == #[trigger] ds[i]);
            assert(ds2[ds.len() as int] == ss[0]);
        }
        assert(all_clean(ss.drop_first())) by {
            assert(forall|i: int|
                0 <= i < ss.drop_first().len() ==> ss.drop_first()[i] == #[trigger] ss[i + 1]);
        }
        assert(pc_has(c1, cand));
        assert(cand.len() <= path_of(ds + ss).len()) by {
            lemma_path_of_app_le(ds2, ss.drop_first());
            assert(ds2 + ss.drop_first() =~= ds + ss);
        }
        assert(pc_has(c2, cand) && pc_at(c2, cand) == pc_at(c1, cand));
        assert(ds2 + ss.drop_first() =~= ds + ss);
        lemma_chain_stable(c1, c2, pc_at(c1, cand), ds2, ss.drop_first());
    }
}

/// A path never shrinks when segments are appended behind it.
pub proof fn lemma_path_of_app_le(u: Seq<Seq<char>>, v: Seq<Seq<char>>)
    requires
        all_clean(u),
        all_clean(v),
    ensures
        path_of(u).len() <= path_of(u + v).len(),
    decreases v.len(),
{
    if v.len() == 0 {
        assert(u + v =~= u);
    } else {
        let u2 = u.push(v[0]);
        lemma_join_path_push(u, v[0]);
        assert(path_of(u2) == join_path(path_of(u), v[0]));
        assert(path_of(u).len() <= path_of(u2).len());
        assert(all_clean(u2)) by {
            assert(forall|i: int| 0 <= i < u.len() ==> u2[i] == #[trigger] u[i]);
            assert(u2[u.len() as int] == v[0]);
        }
        assert(all_clean(v.drop_first())) by {
            assert(forall|i: int|
                0 <= i < v.drop_first().len() ==> v.drop_first()[i] == #[trigger] v[i + 1]);
        }
        lemma_path_of_app_le(u2, v.drop_first());
        assert(u2 + v.drop_first() =~= u + v);
    }
}


/// Registers one record into the graph: synthesizes nodes for the record's
/// id and its referenced parents, loads the record's own fields, and appends
/// the derived child edges.
fn g_register_record(g: &mut Vec<FileNode>, r: &FolderRecord)
    requires
        g_distinct(gm(old(g)@)),
        g_closed(gm(old(g)@)),
    ensures
        g_distinct(gm(final(g)@)),
        g_closed(gm(final(g)@)),
        forall|x: Seq<char>| g_has(gm(old(g)@), x) ==> g_has(gm(final(g)@), x),
        g_has(gm(final(g)@), r.id@),
{
    let m = r.parents.len();
    let mut k: usize = 0;
    while k < m
        invariant
            m == r.parents@.len(),
            0 <= k <= m,
            g_distinct(gm(g@)),
            g_closed(gm(g@)),
            forall|x: Seq<char>| g_has(gm(old(g)@), x) ==> g_has(gm(g@), x),
            forall|j: int| 0 <= j < k ==> g_has(gm(g@), #[trigger] r.parents.deep_view()[j]),
        decreases m - k,
    {
        let ghost gpre = gm(g@);
        g_ensure_node(g, &r.parents[k]);
        proof {
            assert(r.parents.deep_view()[k as int] == r.parents@[k as int]@);
        }
        k += 1;
    }
    let ghost gmid = gm(g@);
    g_ensure_node(g, &r.id);
    proof {
        assert forall|x: Seq<char>| r.parents.deep_view().contains(x) implies g_has(
            gm(g@),
            x,
        ) by {
            let j = choose|j: int|
                0 <= j < r.parents.deep_view().len() && r.parents.deep_view()[j] == x;
            assert(g_has(gmid, r.parents.deep_view()[j]));
        }
    }
    g_set_record(g, r);
    let mut k2: usize = 0;
    while k2 < m
        invariant
            m == r.parents@.len(),
            0 <= k2 <= m,
            g_distinct(gm(g@)),
            g_closed(gm(g@)),
            forall|x: Seq<char>| g_has(gm(old(g)@), x) ==> g_has(gm(g@), x),
            g_has(gm(g@), r.id@),
            forall|j: int| 0 <= j < m ==> g_has(gm(g@), #[trigger] r.parents.deep_view()[j]),
        decreases m - k2,
    {
        proof {
            assert(g_has(gm(g@), r.parents.deep_view()[k2 as int]));
            assert(r.parents.deep_view()[k2 as int] == r.parents@[k2 as int]@);
        }
        g_append_child(g, &r.parents[k2], &r.id);
        k2 += 1;
    }
}

impl FileCache {
    /// Merges the records a scoped lookup of `parent_id`'s children returned
    /// into the graph, and registers each cleanly named child of `parent_id`
    /// under the directory `prefix`, the later record winning a name
    /// collision. Extension is additive: every cached key stays cached, keys
    /// no longer than the prefix keep the ids they map to, and the only keys
    /// remapped at all are exactly such sibling-collision keys one level
    /// below the prefix.
    pub fn merge_children(&mut self, parent_id: &String, prefix: &String, records: &Vec<
        FolderRecord,
    >)
        requires
            old(self).wf(),
            g_has(old(self).graph(), parent_id@),
            pc_has(old(self).path_cache@, prefix@),
        ensures
            final(self).wf(),
            final(self).root_id == old(self).root_id,
            forall|x: Seq<char>| g_has(old(self).graph(), x) ==> g_has(final(self).graph(), x),
            forall|q: Seq<char>|
                pc_has(old(self).path_cache@, q) ==> pc_has(final(self).path_cache@, q),
            forall|q: Seq<char>|
                pc_has(old(self).path_cache@, q) && q.len() <= prefix@.len() ==> pc_at(
                    final(self).path_cache@,
                    q,
                ) == pc_at(old(self).path_cache@, q),
            forall|q: Seq<char>|
                pc_has(final(self).path_cache@, q) && !pc_has(old(self).path_cache@, q)
                    ==> q.len() > prefix@.len(),
            forall|i: int|
                0 <= i < records@.len() && (#[trigger] records@[i]).parents.deep_view().contains(
                    parent_id@,
                ) && clean_seg(records@[i].name@) ==> final(self).cached(
                    join_path(prefix@, records@[i].name@),
                ) && final(self).cache_at(join_path(prefix@, records@[i].name@))
                    == last_child_named(records@, parent_id@, records@[i].name@),
            forall|q: Seq<char>|
                pc_has(old(self).path_cache@, q) && pc_at(final(self).path_cache@, q) != pc_at(
                    old(self).path_cache@,
                    q,
                ) ==> exists|i: int|
                    0 <= i < records@.len() && (#[trigger] records@[i]).parents.deep_view()
                        .contains(parent_id@) && clean_seg(records@[i].name@) && q == join_path(
                        prefix@,
                        records@[i].name@,
                    ),
    {
        let ghost psegs: Seq<Seq<char>> = choose|segs2: Seq<Seq<char>>|
            all_clean(segs2) && prefix@ == path_of(segs2) && (forall|j: int|
                1 <= j <= segs2.len() ==> pc_has(old(self).path_cache@, path_of(
                    #[trigger] segs2.take(j))));
        proof {
            // The cached prefix is prefix-closed: it has a clean segmentation
            // whose every shorter spelling is itself cached.
            let i = pc_idx(self.path_cache@, prefix@);
            assert(self.path_cache@[i].0@ == prefix@);
            assert(key_ok(self.path_cache@, prefix@));
            assert(all_clean(psegs) && prefix@ == path_of(psegs) && (forall|j: int|
                1 <= j <= psegs.len() ==> pc_has(old(self).path_cache@, path_of(
                    #[trigger] psegs.take(j)))));
        }
        let n = records.len();
        let mut i: usize = 0;
        while i < n
            invariant
                n == records@.len(),
                0 <= i <= n,
                all_clean(psegs),
                prefix@ == path_of(psegs),
                g_distinct(self.graph()),
                g_closed(self.graph()),
                self.root_id == old(self).root_id,
                forall|x: Seq<char>| g_has(old(self).graph(), x) ==> g_has(self.graph(), x),
                g_has(self.graph(), old(self).root()),
                g_has(self.graph(), parent_id@),
                pc_distinct(self.path_cache@),
                pc_closed(self.path_cache@),
                pc_values_in(self.path_cache@, self.graph()),
                self.cached(seq!['/']),
                self.cache_at(seq!['/']) == old(self).root(),
                forall|q: Seq<char>|
                    pc_has(old(self).path_cache@, q) ==> pc_has(self.path_cache@, q),
                forall|q: Seq<char>|
                    pc_has(old(self).path_cache@, q) && q.len() <= prefix@.len() ==> pc_at(
                        self.path_cache@,
                        q,
                    ) == pc_at(old(self).path_cache@, q),
                forall|q: Seq<char>|
                    pc_has(self.path_cache@, q) && !pc_has(old(self).path_cache@, q) ==> q.len()
                        > prefix@.len(),
                forall|j: int|
                    1 <= j <= psegs.len() ==> pc_has(self.path_cache@, path_of(
                        #[trigger] psegs.take(j))),
                forall|j: int|
                    0 <= j < i && (#[trigger] records@[j]).parents.deep_view().contains(parent_id@)
                        && clean_seg(records@[j].name@) ==> self.cached(
                        join_path(prefix@, records@[j].name@),
                    ) && self.cache_at(join_path(prefix@, records@[j].name@)) == last_child_named(
                        records@.take(i as int),
                        parent_id@,
                        records@[j].name@,
                    ),
                forall|q: Seq<char>|
                    pc_has(old(self).path_cache@, q) && pc_at(self.path_cache@, q) != pc_at(
                        old(self).path_cache@,
                        q,
                    ) ==> exists|j: int|
                        0 <= j < i && (#[trigger] records@[j]).parents.deep_view().contains(
                            parent_id@,
                        ) && clean_seg(records@[j].name@) && q == join_path(
                            prefix@,
                            records@[j].name@,
                        ),
            decreases n - i,
        {
            let r = &records[i];
            let ghost gpre = self.graph();
            g_register_record(&mut self.graph_cache, r);
            proof {
                assert forall|i2: int|
                    0 <= i2 < self.path_cache@.len() implies g_has(
                    self.graph(),
                    (#[trigger] self.path_cache@[i2]).1@,
                ) by {
                    assert(g_has(gpre, self.path_cache@[i2].1@));
                }
            }
            // Register the child's path when it is addressable.
            if contains_str(&r.parents, parent_id) && is_clean_name(r.name.as_str()) {
                let key = join_path_str(prefix.as_str(), r.name.as_str());
                let ghost cpre = self.path_cache@;
                pc_upsert(&mut self.path_cache, &key, &r.id);
                proof {
                    let segs_k = psegs.push(r.name@);
                    lemma_join_path_push(psegs, r.name@);
                    assert(key@ == path_of(segs_k));
                    assert(all_clean(segs_k)) by {
                        assert(forall|j: int|
                            0 <= j < psegs.len() ==> segs_k[j] == #[trigger] psegs[j]);
                        assert(segs_k[psegs.len() as int] == r.name@);
                    }
                    assert(key@.len() > prefix@.len()) by {
                        assert(r.name@.len() >= 1);
                    }
                    assert(pc_closed(self.path_cache@)) by {
                        assert forall|i2: int|
                            0 <= i2 < self.path_cache@.len() implies key_ok(
                            self.path_cache@,
                            #[trigger] self.path_cache@[i2].0@,
                        ) by {
                            if self.path_cache@[i2].0@ == key@ {
                                assert(key_ok(self.path_cache@, key@)) by {
                                    assert(segs_k.take(segs_k.len() as int) =~= segs_k);
                                    assert forall|j: int|
                                        1 <= j <= segs_k.len() implies pc_has(
                                        self.path_cache@,
                                        path_of(#[trigger] segs_k.take(j)),
                                    ) by {
                                        if j <= psegs.len() {
                                            assert(segs_k.take(j) =~= psegs.take(j));
                                            assert(pc_has(cpre, path_of(psegs.take(j))));
                                        } else {
                                            assert(segs_k.take(j) =~= segs_k);
                                            assert(pc_has(self.path_cache@, key@));
                                        }
                                    }
                                }
                            } else {
                                assert(i2 < cpre.len() && self.path_cache@[i2] == cpre[i2]);
                                lemma_key_ok_mono(cpre, self.path_cache@, cpre[i2].0@);
                            }
                        }
                    }
                    assert(pc_values_in(self.path_cache@, self.graph())) by {
                        assert forall|i2: int|
                            0 <= i2 < self.path_cache@.len() implies g_has(
                            self.graph(),
                            (#[trigger] self.path_cache@[i2]).1@,
                        ) by {
                            if i2 < cpre.len() && self.path_cache@[i2] == cpre[i2] {
                            } else {
                                assert(self.path_cache@[i2].1@ == r.id@);
                            }
                        }
                    }
                    assert(self.cached(seq!['/']) && self.cache_at(seq!['/']) == old(
                        self,
                    ).root()) by {
                        assert(seq!['/'].len() <= prefix@.len()) by {
                            if psegs.len() > 0 {
                                lemma_sep_join_chars(psegs);
                            }
                        }
                        assert(seq!['/'] != key@);
                    }
                    assert(records@.take(i + 1).last() == records@[i as int]);
                    assert(records@.take(i + 1).drop_last() =~= records@.take(i as int));
                    assert forall|j: int|
                        0 <= j < i + 1 && (#[trigger] records@[j]).parents.deep_view().contains(
                            parent_id@,
                        ) && clean_seg(records@[j].name@) implies self.cached(
                        join_path(prefix@, records@[j].name@),
                    ) && self.cache_at(join_path(prefix@, records@[j].name@)) == last_child_named(
                        records@.take(i + 1),
                        parent_id@,
                        records@[j].name@,
                    ) by {
                        let kj = join_path(prefix@, records@[j].name@);
                        if records@[j].name@ == r.name@ {
                            assert(kj == key@);
                            assert(self.cache_at(kj) == r.id@);
                            assert(last_child_named(records@.take(i + 1), parent_id@,
                                records@[j].name@) == r.id@);
                        } else {
                            assert(kj != key@) by {
                                if kj == key@ {
                                    lemma_join_path_right_injective(prefix@, records@[j].name@,
                                        r.name@);
                                }
                            }
                            assert(j < i);
                            assert(pc_has(cpre, kj) && pc_at(cpre, kj) == last_child_named(
                                records@.take(i as int), parent_id@, records@[j].name@));
                            assert(pc_at(self.path_cache@, kj) == pc_at(cpre, kj));
                            assert(last_child_named(records@.take(i + 1), parent_id@,
                                records@[j].name@) == last_child_named(records@.take(i as int),
                                parent_id@, records@[j].name@));
                        }
                    }
                    assert forall|q: Seq<char>|
                        pc_has(old(self).path_cache@, q) && pc_at(self.path_cache@, q) != pc_at(
                        old(self).path_cache@,
                        q,
                    ) implies exists|j: int|
                        0 <= j < i + 1 && (#[trigger] records@[j]).parents.deep_view().contains(
                            parent_id@,
                        ) && clean_seg(records@[j].name@) && q == join_path(
                            prefix@,
                            records@[j].name@,
                        ) by {
                        if q == key@ {
                            assert(records@[i as int].parents.deep_view().contains(parent_id@)
                                && clean_seg(records@[i as int].name@) && q == join_path(
                                prefix@,
                                records@[i as int].name@,
                            ));
                        } else {
                            assert(pc_has(cpre, q));
                            assert(pc_at(self.path_cache@, q) == pc_at(cpre, q));
                            let j = choose|j: int|
                                0 <= j < i && (#[trigger] records@[j]).parents.deep_view()
                                    .contains(parent_id@) && clean_seg(records@[j].name@) && q
                                    == join_path(prefix@, records@[j].name@);
                            assert(0 <= j < i + 1);
                        }
                    }
                }
            } else {
                proof {
                    assert(records@[i as int] == *r);
                    assert(!(r.parents.deep_view().contains(parent_id@) && clean_seg(r.name@)));
                    assert(records@.take(i + 1).last() == records@[i as int]);
                    assert(records@.take(i + 1).drop_last() =~= records@.take(i as int));
                    assert forall|j: int|
                        0 <= j < i + 1 && (#[trigger] records@[j]).parents.deep_view().contains(
                            parent_id@,
                        ) && clean_seg(records@[j].name@) implies self.cached(
                        join_path(prefix@, records@[j].name@),
                    ) && self.cache_at(join_path(prefix@, records@[j].name@)) == last_child_named(
                        records@.take(i + 1),
                        parent_id@,
                        records@[j].name@,
                    ) by {
                        assert(j < i);
                        // The skipped record is no child of the parent under
                        // this name, so the winning write is unchanged.
                        assert(last_child_named(records@.take(i + 1), parent_id@,
                            records@[j].name@) == last_child_named(records@.take(i as int),
                            parent_id@, records@[j].name@)) by {
                            assert(!(records@[i as int].parents.deep_view().contains(parent_id@)
                                && records@[i as int].name@ == records@[j].name@));
                        }
                    }
                }
            }
            i += 1;
        }
        proof {
            assert(records@.take(n as int) =~= records@);
            assert(final(self).wf()) by {
                assert(g_has(final(self).graph(), final(self).root()));
            }
        }
    }
}

impl FileCache {
    /// Resolves an absolute path to the id it denotes.
    ///
    /// The path is split on `/`; one that does not start with `/` or has an
    /// empty segment fails with `MalformedPath`, whatever the cache holds,
    /// and changes nothing. The walk starts at the root and looks each
    /// extended prefix up in the cache. A missing prefix triggers one
    /// `lookup` of the current id — the caller-supplied scoped remote query
    /// — whose records are merged before the prefix is retried once; a
    /// prefix still missing fails with `NotFound` carrying the full path,
    /// and a failed lookup aborts with its error, previously cached entries
    /// staying intact either way. A fully cached path resolves to its cached
    /// id with no lookup and no change at all, and a successful resolution
    /// leaves the full path cached, mapped to the id returned — so resolving
    /// it again returns the same id and changes nothing further.
    pub fn resolve<F: Fn(String) -> Result<Vec<FolderRecord>, QueryError>>(
        &mut self,
        path: &str,
        lookup: F,
    ) -> (r: Result<String, ResolveError>)
        requires
            old(self).wf(),
            forall|x: String| call_requires(lookup, (x,)),
        ensures
            final(self).wf(),
            final(self).root_id == old(self).root_id,
            forall|q: Seq<char>| old(self).cached(q) ==> final(self).cached(q),
            ((r matches Err(e) && e is MalformedPath) <==> !wf_path_chars(path@)),
            !wf_path_chars(path@) ==> *final(self) == *old(self),
            forall|segs: Seq<Seq<char>>|
                all_clean(segs) && path@ == path_of(segs) && chain(
                    old(self).path_cache@,
                    old(self).root(),
                    seq!['/'],
                    segs,
                ) is Some ==> *final(self) == *old(self) && r is Ok && Some(r->Ok_0@) == chain(
                    old(self).path_cache@,
                    old(self).root(),
                    seq!['/'],
                    segs,
                ),
            r matches Ok(rid) ==> wf_path_chars(path@) && final(self).cached(path@)
                && final(self).cache_at(path@) == rid@ && (forall|segs: Seq<Seq<char>>|
                all_clean(segs) && path@ == path_of(segs) ==> chain(
                    final(self).path_cache@,
                    old(self).root(),
                    seq!['/'],
                    segs,
                ) == Some(rid@)),
            r matches Err(e) ==> (e matches ResolveError::NotFound(p) ==> p@ == path@),
            (r matches Err(e) && e is NotFound) ==> exists|
                cs: String,
                recs: Vec<FolderRecord>,
                segs: Seq<Seq<char>>,
                i: int,
            |
                #![trigger call_ensures(lookup, (cs,), Result::<Vec<FolderRecord>, QueryError>::Ok(recs)), segs[i]]
                {
                    &&& call_ensures(lookup, (cs,), Result::<
                        Vec<FolderRecord>,
                        QueryError,
                    >::Ok(recs))
                    &&& all_clean(segs)
                    &&& path@ == path_of(segs)
                    &&& 0 <= i < segs.len()
                    &&& forall|j: int|
                        0 <= j < recs@.len() ==> !((#[trigger] recs@[j]).parents.deep_view()
                            .contains(cs@) && recs@[j].name@ == segs[i])
                },
    {
        let ghost empty_segs = Seq::<Seq<char>>::empty();
        proof {
            assert(path_of(empty_segs) =~= seq!['/']);
        }
        let segs = match parse_path(path) {
            None => {
                proof {
                    assert forall|s2: Seq<Seq<char>>|
                        all_clean(s2) && path@ == path_of(s2) implies false by {
                        crate::paths::lemma_path_of_wf(s2);
                    }
                }
                return Err(ResolveError::MalformedPath);
            },
            Some(v) => v,
        };
        let ghost sv = segs.deep_view();
        let ghost root0 = self.root_id@;
        let ghost c_old = self.path_cache@;
        let mut current = self.root_id.clone();
        let mut prefix = String::from_str("/");
        proof {
            reveal_strlit("/");
            assert(prefix@ =~= seq!['/']);
            assert(prefix@ == path_of(empty_segs));
            assert(sv.take(0) =~= empty_segs);
            assert(chain(self.path_cache@, root0, path_of(empty_segs), sv.take(0)) == Some(
                current@));
        }
        let n = segs.len();
        let mut i: usize = 0;
        while i < n
            invariant
                n == sv.len(),
                0 <= i <= n,
                sv == segs.deep_view(),
                all_clean(sv),
                path@ == path_of(sv),
                empty_segs == Seq::<Seq<char>>::empty(),
                path_of(empty_segs) == seq!['/'],
                self.wf(),
                self.root_id == old(self).root_id,
                root0 == old(self).root(),
                c_old == old(self).path_cache@,
                forall|q: Seq<char>| pc_has(c_old, q) ==> self.cached(q),
                prefix@ == path_of(sv.take(i as int)),
                chain(self.path_cache@, root0, path_of(empty_segs), sv.take(i as int)) == Some(
                    current@,
                ),
                g_has(self.graph(), current@),
                chain(c_old, root0, path_of(empty_segs), sv) is Some ==> *self == *old(self),
                forall|x: String| call_requires(lookup, (x,)),
            decreases n - i,
        {
            let ghost done = sv.take(i as int);
            let seg = &segs[i];
            proof {
                assert(seg@ == sv[i as int]);
                assert(clean_seg(sv[i as int]));
                assert(all_clean(done)) by {
                    assert(forall|j: int| 0 <= j < done.len() ==> done[j] == #[trigger] sv[j]);
                }
            }
            let cand = join_path_str(prefix.as_str(), seg.as_str());
            proof {
                lemma_join_path_push(done, seg@);
                assert(cand@ == path_of(done.push(seg@)));
                assert(done.push(seg@) =~= sv.take(i + 1));
            }
            let hit = pc_get(&self.path_cache, &cand);
            match hit {
                Some(v) => {
                    proof {
                        let c = self.path_cache@;
                        lemma_chain_app(c, root0, empty_segs, done, seq![seg@]);
                        assert(empty_segs + done =~= done);
                        assert(done + seq![seg@] =~= sv.take(i + 1));
                        assert(seq![seg@].drop_first() =~= Seq::<Seq<char>>::empty());
                        assert(join_path(path_of(done), seq![seg@][0]) == cand@);
                        assert(chain(c, pc_at(c, cand@), cand@, seq![seg@].drop_first()) == Some(
                            pc_at(c, cand@)));
                        assert(chain(c, current@, path_of(done), seq![seg@]) == Some(pc_at(c,
                            cand@)));
                        assert(chain(c, root0, path_of(empty_segs), sv.take(i + 1)) == Some(v@));
                        assert(g_has(self.graph(), v@)) by {
                            let j = pc_idx(c, cand@);
                            assert(0 <= j < c.len() && c[j].0@ == cand@);
                            assert(g_has(self.graph(), c[j].1@));
                        }
                    }
                    current = v;
                    prefix = cand;
                },
                None => {
                    proof {
                        if chain(c_old, root0, path_of(empty_segs), sv) is Some {
                            assert(*self == *old(self));
                            lemma_chain_app(c_old, root0, empty_segs, done, sv.skip(i as int));
                            assert(done + sv.skip(i as int) =~= sv);
                            assert(empty_segs + done =~= done);
                            assert(chain(c_old, current@, path_of(done), sv.skip(i as int))
                                is Some);
                            assert(sv.skip(i as int)[0] == sv[i as int]);
                            assert(pc_has(c_old, join_path(path_of(done), sv[i as int])));
                            assert(false);
                        }
                    }
                    let call_arg = current.clone();
                    let ghost call_arg_snapshot = call_arg;
                    let looked = lookup(call_arg);
                    let recs = match looked {
                        Err(qe) => {
                            proof {
                                assert forall|s2: Seq<Seq<char>>|
                                    all_clean(s2) && path@ == path_of(s2) && chain(
                                        c_old,
                                        root0,
                                        seq!['/'],
                                        s2,
                                    ) is Some implies false by {
                                    lemma_path_of_injective(s2, sv);
                                }
                                crate::paths::lemma_path_of_wf(sv);
                            }
                            return Err(ResolveError::Lookup(qe));
                        },
                        Ok(recs) => recs,
                    };
                    let ghost c_pre = self.path_cache@;
                    proof {
                        if i == 0 {
                            assert(done =~= empty_segs);
                            assert(prefix@ == seq!['/']);
                            assert(pc_has(self.path_cache@, prefix@));
                        } else {
                            assert(empty_segs + done =~= done);
                            lemma_chain_last(self.path_cache@, root0, empty_segs, done);
                            assert(pc_has(self.path_cache@, prefix@));
                        }
                    }
                    self.merge_children(&current, &prefix, &recs);
                    proof {
                        assert(empty_segs + done =~= done);
                        assert(path_of(empty_segs + done) == path_of(done));
                        assert forall|q: Seq<char>|
                            pc_has(c_pre, q) && q.len() <= path_of(empty_segs + done).len()
                            implies pc_has(self.path_cache@, q) && pc_at(self.path_cache@, q)
                            == pc_at(c_pre, q) by {
                            assert(q.len() <= prefix@.len());
                        }
                        lemma_chain_stable(c_pre, self.path_cache@, root0, empty_segs, done);
                        assert(chain(self.path_cache@, root0, path_of(empty_segs), done) == Some(
                            current@));
                    }
                    let hit2 = pc_get(&self.path_cache, &cand);
                    match hit2 {
                        Some(v) => {
                            proof {
                                let c = self.path_cache@;
                                lemma_chain_app(c, root0, empty_segs, done, seq![seg@]);
                                assert(done + seq![seg@] =~= sv.take(i + 1));
                                assert(seq![seg@].drop_first() =~= Seq::<Seq<char>>::empty());
                                assert(join_path(path_of(done), seq![seg@][0]) == cand@);
                                assert(chain(c, pc_at(c, cand@), cand@, seq![seg@].drop_first())
                                    == Some(pc_at(c, cand@)));
                                assert(chain(c, current@, path_of(done), seq![seg@]) == Some(
                                    pc_at(c, cand@)));
                                assert(chain(c, root0, path_of(empty_segs), sv.take(i + 1))
                                    == Some(v@));
                                assert(g_has(self.graph(), v@)) by {
                                    let j = pc_idx(c, cand@);
                                    assert(0 <= j < c.len() && c[j].0@ == cand@);
                                    assert(g_has(self.graph(), c[j].1@));
                                }
                            }
                            current = v;
                            prefix = cand;
                        },
                        None => {
                            proof {
                                assert forall|s2: Seq<Seq<char>>|
                                    all_clean(s2) && path@ == path_of(s2) && chain(
                                        c_old,
                                        root0,
                                        seq!['/'],
                                        s2,
                                    ) is Some implies false by {
                                    lemma_path_of_injective(s2, sv);
                                }
                                crate::paths::lemma_path_of_wf(sv);
                                // The merged records held no child of the
                                // current id named like the missing segment:
                                // such a child would have been registered.
                                assert(call_ensures(lookup, (call_arg_snapshot,), Result::<
                                    Vec<FolderRecord>,
                                    QueryError,
                                >::Ok(recs)));
                                assert forall|j: int|
                                    0 <= j < recs@.len() implies !((#[trigger] recs@[j])
                                    .parents.deep_view().contains(call_arg_snapshot@)
                                    && recs@[j].name@ == sv[i as int]) by {
                                    if recs@[j].parents.deep_view().contains(call_arg_snapshot@)
                                        && recs@[j].name@ == sv[i as int] {
                                        assert(clean_seg(recs@[j].name@));
                                        assert(self.cached(join_path(prefix@, recs@[j].name@)));
                                        assert(join_path(prefix@, recs@[j].name@) == cand@);
                                        assert(pc_has(self.path_cache@, cand@));
                                        assert(false);
                                    }
                                }
                            }
                            return Err(ResolveError::NotFound(path.to_owned()));
                        },
                    }
                },
            }
            i += 1;
        }
        proof {
            assert(sv.take(n as int) =~= sv);
            assert(chain(self.path_cache@, root0, path_of(empty_segs), sv) == Some(current@));
            if sv.len() > 0 {
                lemma_chain_last(self.path_cache@, root0, empty_segs, sv);
                assert(empty_segs + sv =~= sv);
                assert(pc_has(self.path_cache@, path_of(sv)));
                assert(pc_at(self.path_cache@, path_of(sv)) == current@);
            } else {
                assert(path@ == path_of(empty_segs));
                assert(path@ == seq!['/']);
                assert(current@ == root0);
            }
            assert forall|s2: Seq<Seq<char>>|
                all_clean(s2) && path@ == path_of(s2) implies chain(
                self.path_cache@,
                root0,
                seq!['/'],
                s2,
            ) == Some(current@) by {
                lemma_path_of_injective(s2, sv);
            }
            assert forall|s2: Seq<Seq<char>>|
                all_clean(s2) && path@ == path_of(s2) && chain(c_old, root0, seq!['/'], s2)
                    is Some implies *self == *old(self) && Some(current@) == chain(
                c_old,
                root0,
                seq!['/'],
                s2,
            ) by {
                lemma_path_of_injective(s2, sv);
            }
        }
        Ok(current)
    }
}

} // verus!
