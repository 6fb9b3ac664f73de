//! Absolute slash-delimited paths: the canonical form used as keys of the
//! path cache, and the functions that build and take apart such paths.
use vstd::prelude::*;

verus! {

use vstd::string::*;

/// A usable path segment: a non-empty name with no separator in it.
pub open spec fn clean_seg(s: Seq<char>) -> bool {
    s.len() > 0 && forall|i: int| 0 <= i < s.len() ==> #[trigger] s[i] != '/'
}

pub open spec fn all_clean(segs: Seq<Seq<char>>) -> bool {
    forall|i: int| 0 <= i < segs.len() ==> clean_seg(#[trigger] segs[i])
}

/// Joins segments with `/` between them (no leading separator).
pub open spec fn sep_join(segs: Seq<Seq<char>>) -> Seq<char>
    decreases segs.len(),
{
    if segs.len() == 0 {
        Seq::empty()
    } else if segs.len() == 1 {
        segs[0]
    } else {
        segs[0] + seq!['/'] + sep_join(segs.drop_first())
    }
}

/// The absolute path spelled by a segment list; the empty list denotes the root `/`.
pub open spec fn path_of(segs: Seq<Seq<char>>) -> Seq<char> {
    seq!['/'] + sep_join(segs)
}

/// Character-level well-formedness of an absolute path: starts with `/`,
/// no empty segment (no `//`, no trailing `/` except the bare root).
pub open spec fn wf_path_chars(p: Seq<char>) -> bool {
    &&& p.len() >= 1
    &&& p[0] == '/'
    &&& (p.len() > 1 ==> p[p.len() - 1] != '/')
    &&& forall|i: int| 0 <= i < p.len() - 1 ==> !(#[trigger] p[i] == '/' && p[i + 1] == '/')
}

/// Extends a directory prefix by one name: the root prefix `/` yields `/name`,
/// a longer prefix `p` yields `p/name`.
pub open spec fn join_path(prefix: Seq<char>, name: Seq<char>) -> Seq<char> {
    if prefix.len() <= 1 {
        seq!['/'] + name
    } else {
        prefix + seq!['/'] + name
    }
}

/// Characterises the separator positions of a joined segment list: it is
/// non-empty, never starts or ends with `/`, and has no two adjacent `/`.
pub proof fn lemma_sep_join_chars(segs: Seq<Seq<char>>)
    requires
        all_clean(segs),
        segs.len() > 0,
    ensures
        sep_join(segs).len() >= 1,
        sep_join(segs)[0] != '/',
        sep_join(segs)[sep_join(segs).len() - 1] != '/',
        forall|i: int|
            0 <= i < sep_join(segs).len() - 1 ==> !(#[trigger] sep_join(segs)[i] == '/'
                && sep_join(segs)[i + 1] == '/'),
    decreases segs.len(),
{
    let s = sep_join(segs);
    if segs.len() == 1 {
        assert(clean_seg(segs[0]));
    } else {
        let head = segs[0];
        let rest = segs.drop_first();
        assert(all_clean(rest)) by {
            assert(forall|i: int| 0 <= i < rest.len() ==> rest[i] == segs[i + 1]);
        }
        lemma_sep_join_chars(rest);
        let jr = sep_join(rest);
        assert(clean_seg(head));
        assert(s == head + seq!['/'] + jr);
        let h = head.len() as int;
        assert forall|i: int| 0 <= i < s.len() implies #[trigger] s[i] == (if i < h {
            head[i]
        } else if i == h {
            '/'
        } else {
            jr[i - h - 1]
        }) by {}
        assert(s[0] != '/');
        assert(s[s.len() - 1] == jr[jr.len() - 1]);
        assert forall|i: int| 0 <= i < s.len() - 1 implies !(#[trigger] s[i] == '/' && s[i + 1]
            == '/') by {
            if i < h {
                assert(s[i] == head[i] && head[i] != '/');
            } else if i == h {
                assert(s[i + 1] == jr[0] && jr[0] != '/');
            } else {
                assert(s[i] == jr[i - h - 1] && s[i + 1] == jr[i - h]);
            }
        }
    }
}

/// Every path written from clean segments is well-formed at the character level.
pub proof fn lemma_path_of_wf(segs: Seq<Seq<char>>)
    requires
        all_clean(segs),
    ensures
        wf_path_chars(path_of(segs)),
{
    let p = path_of(segs);
    assert(p[0] == '/');
    if segs.len() == 0 {
        assert(p.len() == 1);
    } else {
        lemma_sep_join_chars(segs);
        let s = sep_join(segs);
        assert(p.len() == s.len() + 1);
        assert(p[p.len() - 1] == s[s.len() - 1]);
        assert forall|i: int| 0 <= i < p.len() - 1 implies !(#[trigger] p[i] == '/' && p[i + 1]
            == '/') by {
            if i == 0 {
                assert(p[1] == s[0]);
            } else {
                assert(p[i] == s[i - 1] && p[i + 1] == s[i]);
            }
        }
    }
}

/// Appending one segment to a non-empty list splices it on behind a separator.
pub proof fn lemma_sep_join_push(segs: Seq<Seq<char>>, s: Seq<char>)
    requires
        segs.len() > 0,
    ensures
        sep_join(segs.push(s)) == sep_join(segs) + seq!['/'] + s,
    decreases segs.len(),
{
    let e = segs.push(s);
    if segs.len() == 1 {
        assert(e.drop_first() =~= seq![s]);
        assert(sep_join(e.drop_first()) == s);
        assert(sep_join(e) == segs[0] + seq!['/'] + s);
        assert(sep_join(segs) == segs[0]);
    } else {
        lemma_sep_join_push(segs.drop_first(), s);
        assert(e.drop_first() =~= segs.drop_first().push(s));
        assert(sep_join(e) == e[0] + seq!['/'] + sep_join(e.drop_first()));
        assert(sep_join(e) == segs[0] + seq!['/'] + (sep_join(segs.drop_first()) + seq!['/']
            + s));
        assert(segs[0] + seq!['/'] + (sep_join(segs.drop_first()) + seq!['/'] + s) =~= (segs[0]
            + seq!['/'] + sep_join(segs.drop_first())) + seq!['/'] + s);
    }
}

/// `join_path` agrees with `path_of` on one more segment.
pub proof fn lemma_join_path_push(segs: Seq<Seq<char>>, s: Seq<char>)
    requires
        all_clean(segs),
    ensures
        join_path(path_of(segs), s) == path_of(segs.push(s)),
{
    if segs.len() == 0 {
        assert(path_of(segs) =~= seq!['/']);
        assert(segs.push(s) =~= seq![s]);
        assert(sep_join(seq![s]) == s);
        assert(join_path(path_of(segs), s) =~= seq!['/'] + s);
    } else {
        lemma_sep_join_chars(segs);
        assert(path_of(segs).len() >= 2);
        lemma_sep_join_push(segs, s);
        assert(join_path(path_of(segs), s) == (seq!['/'] + sep_join(segs)) + seq!['/'] + s);
        assert((seq!['/'] + sep_join(segs)) + seq!['/'] + s =~= seq!['/'] + (sep_join(segs)
            + seq!['/'] + s));
    }
}

/// Two clean segment lists that spell the same joined text are the same list.
pub proof fn lemma_sep_join_injective(a: Seq<Seq<char>>, b: Seq<Seq<char>>)
    requires
        all_clean(a),
        all_clean(b),
        sep_join(a) == sep_join(b),
    ensures
        a =~= b,
    decreases a.len(),
{
    let s = sep_join(a);
    if a.len() == 0 {
        if b.len() > 0 {
            lemma_sep_join_chars(b);
            assert(false);
        }
    } else if b.len() == 0 {
        lemma_sep_join_chars(a);
        assert(false);
    } else {
        // Both non-empty: their first segments end at the first separator.
        let ha = a[0].len() as int;
        let hb = b[0].len() as int;
        assert(forall|i: int| 0 <= i < ha ==> #[trigger] s[i] == a[0][i]) by {
            if a.len() > 1 {
            } else {
            }
        }
        assert(forall|i: int| 0 <= i < hb ==> #[trigger] s[i] == b[0][i]);
        if a.len() == 1 && b.len() == 1 {
            assert(a[0] == s && b[0] == s);
            assert(a =~= b);
        } else if a.len() == 1 {
            // s is a[0], separator-free, yet b spells a separator at hb.
            assert(s[hb] == '/');
            assert(s[hb] == a[0][hb] && a[0][hb] != '/');
            assert(false);
        } else if b.len() == 1 {
            assert(s[ha] == '/');
            assert(s[ha] == b[0][ha] && b[0][ha] != '/');
            assert(false);
        } else {
            assert(s[ha] == '/');
            assert(s[hb] == '/');
            if ha < hb {
                assert(s[ha] == b[0][ha] && b[0][ha] != '/');
                assert(false);
            }
            if hb < ha {
                assert(s[hb] == a[0][hb] && a[0][hb] != '/');
                assert(false);
            }
            assert forall|i: int| 0 <= i < ha implies a[0][i] == b[0][i] by {
                assert(s[i] == a[0][i]);
                assert(s[i] == b[0][i]);
            }
            assert(a[0] =~= b[0]);
            let ra = a.drop_first();
            let rb = b.drop_first();
            assert(all_clean(ra)) by {
                assert(forall|i: int| 0 <= i < ra.len() ==> ra[i] == a[i + 1]);
            }
            assert(all_clean(rb)) by {
                assert(forall|i: int| 0 <= i < rb.len() ==> rb[i] == b[i + 1]);
            }
            assert(sep_join(ra) =~= s.skip(ha + 1)) by {
                assert(s == a[0] + seq!['/'] + sep_join(ra));
            }
            assert(sep_join(rb) =~= s.skip(hb + 1)) by {
                assert(s == b[0] + seq!['/'] + sep_join(rb));
            }
            lemma_sep_join_injective(ra, rb);
            assert(a =~= b) by {
                assert(forall|i: int| 1 <= i < a.len() ==> a[i] == ra[i - 1] && b[i] == rb[i
                    - 1]);
            }
        }
    }
}

/// Two clean segment lists that spell the same absolute path are the same list.
pub proof fn lemma_path_of_injective(a: Seq<Seq<char>>, b: Seq<Seq<char>>)
    requires
        all_clean(a),
        all_clean(b),
        path_of(a) == path_of(b),
    ensures
        a =~= b,
{
    assert(sep_join(a) =~= (seq!['/'] + sep_join(a)).skip(1));
    assert(sep_join(b) =~= (seq!['/'] + sep_join(b)).skip(1));
    lemma_sep_join_injective(a, b);
}

/// Joining two different names onto one prefix yields two different paths.
pub proof fn lemma_join_path_right_injective(prefix: Seq<char>, a: Seq<char>, b: Seq<char>)
    requires
        join_path(prefix, a) == join_path(prefix, b),
    ensures
        a == b,
{
    if prefix.len() <= 1 {
        assert(a =~= (seq!['/'] + a).skip(1));
        assert(b =~= (seq!['/'] + b).skip(1));
    } else {
        let p = prefix + seq!['/'];
        assert(a =~= (p + a).skip(p.len() as int));
        assert(b =~= (p + b).skip(p.len() as int));
        assert(prefix + seq!['/'] + a =~= p + a);
        assert(prefix + seq!['/'] + b =~= p + b);
    }
}

/// Builds `prefix/name` (or `/name` when the prefix is the bare root).
pub fn join_path_str(prefix: &str, name: &str) -> (r: String)
    ensures
        r@ == join_path(prefix@, name@),
{
    proof {
        reveal_strlit("/");
    }
    let mut s: String;
    if prefix.unicode_len() <= 1 {
        s = String::from_str("/");
        assert(s@ =~= seq!['/']);
    } else {
        s = prefix.to_owned();
        s.append("/");
        assert(s@ =~= prefix@ + seq!['/']);
    }
    s.append(name);
    proof {
        if prefix@.len() <= 1 {
            assert(s@ =~= seq!['/'] + name@);
        } else {
            assert(s@ =~= prefix@ + seq!['/'] + name@);
        }
    }
    s
}

/// Checks that a name can serve as a path segment: non-empty and free of `/`.
pub fn is_clean_name(name: &str) -> (r: bool)
    ensures
        r == clean_seg(name@),
{
    let n = name.unicode_len();
    if n == 0 {
        return false;
    }
    let mut i: usize = 0;
    while i < n
        invariant
            0 <= i <= n,
            n == name@.len(),
            forall|j: int| 0 <= j < i ==> #[trigger] name@[j] != '/',
        decreases n - i,
    {
        if name.get_char(i) == '/' {
            return false;
        }
        i += 1;
    }
    true
}

/// Splits an absolute path into its segments.
///
/// Returns `None` exactly on malformed paths: those that do not start with
/// `/`, or contain an empty segment (`//` or a trailing `/`). The bare root
/// `/` yields the empty segment list.
pub fn parse_path(path: &str) -> (r: Option<Vec<String>>)
    ensures
        r is Some <==> wf_path_chars(path@),
        r matches Some(v) ==> all_clean(v.deep_view()) && path@ == path_of(v.deep_view()),
{
    let n = path.unicode_len();
    if n == 0 {
        return None;
    }
    if path.get_char(0) != '/' {
        return None;
    }
    if n == 1 {
        let v: Vec<String> = Vec::new();
        proof {
            assert(v.deep_view() =~= Seq::<Seq<char>>::empty());
            assert(path_of(v.deep_view()) =~= path@);
        }
        return Some(v);
    }
    let mut segs: Vec<String> = Vec::new();
    let mut start: usize = 1;
    let mut i: usize = 1;
    while i < n
        invariant
            n == path@.len(),
            n >= 2,
            path@[0] == '/',
            1 <= start <= i <= n,
            all_clean(segs.deep_view()),
            path@[start - 1] == '/',
            segs.deep_view().len() == 0 ==> start == 1,
            segs.deep_view().len() > 0 ==> start >= 2 && path@.subrange(0, start - 1) == path_of(
                segs.deep_view()),
            forall|j: int| start <= j < i ==> #[trigger] path@[j] != '/',
        decreases n - i,
    {
        if path.get_char(i) == '/' {
            if i == start {
                // An empty segment: a `//` inside the path.
                proof {
                    assert(path@[i - 1] == '/' && path@[i as int] == '/');
                }
                return None;
            }
            let seg = path.substring_char(start, i);
            let owned = seg.to_owned();
            proof {
                assert(owned@ == path@.subrange(start as int, i as int));
                assert(clean_seg(owned@));
            }
            let ghost old_segs = segs.deep_view();
            segs.push(owned);
            proof {
                assert(segs.deep_view() =~= old_segs.push(owned@));
                assert(all_clean(segs.deep_view()));
                if old_segs.len() == 0 {
                    assert(start == 1);
                    assert(segs.deep_view() =~= seq![owned@]);
                    assert(sep_join(seq![owned@]) == owned@);
                    assert(path@.subrange(0, i as int) =~= seq!['/'] + owned@);
                } else {
                    lemma_sep_join_push(old_segs, owned@);
                    assert(path_of(old_segs.push(owned@)) == seq!['/'] + (sep_join(old_segs)
                        + seq!['/'] + owned@));
                    assert(path@.subrange(0, i as int) =~= path@.subrange(0, start - 1) + seq![
                        '/',
                    ] + owned@);
                    assert(path@.subrange(0, i as int) =~= seq!['/'] + (sep_join(old_segs) + seq![
                        '/',
                    ] + owned@)) by {
                        assert(path@.subrange(0, start - 1) == seq!['/'] + sep_join(old_segs));
                    }
                }
            }
            start = i + 1;
        }
        i += 1;
    }
    // The final segment runs from `start` to the end of the path.
    if start == n {
        // A trailing `/`: the last segment is empty.
        proof {
            assert(path@[n - 1] == '/');
        }
        return None;
    }
    let seg = path.substring_char(start, n);
    let owned = seg.to_owned();
    proof {
        assert(owned@ == path@.subrange(start as int, n as int));
        assert(clean_seg(owned@));
    }
    let ghost old_segs = segs.deep_view();
    segs.push(owned);
    proof {
        assert(segs.deep_view() =~= old_segs.push(owned@));
        assert(all_clean(segs.deep_view()));
        if old_segs.len() == 0 {
            assert(start == 1);
            assert(segs.deep_view() =~= seq![owned@]);
            assert(sep_join(seq![owned@]) == owned@);
            assert(path@.subrange(0, n as int) =~= seq!['/'] + owned@);
        } else {
            lemma_sep_join_push(old_segs, owned@);
            assert(path_of(old_segs.push(owned@)) == seq!['/'] + (sep_join(old_segs) + seq!['/']
                + owned@));
            assert(path@.subrange(0, n as int) =~= path@.subrange(0, start - 1) + seq!['/']
                + owned@);
            assert(path@.subrange(0, n as int) =~= seq!['/'] + (sep_join(old_segs) + seq!['/']
                + owned@)) by {
                assert(path@.subrange(0, start - 1) == seq!['/'] + sep_join(old_segs));
            }
        }
        assert(path@.subrange(0, n as int) =~= path@);
        assert(path@ == path_of(segs.deep_view()));
        lemma_path_of_wf(segs.deep_view());
    }
    Some(segs)
}

} // verus!
