//! Which entries a filtered, partly expanded view shows, in which order, with which branches.
use crate::codec::{join_key, path_to_store_key, segs_view};
use crate::order::{cmp_segment, lemma_seg_order, lex_lt};
use crate::store::{
    cmp_tree, entries_view, entry_lt, index_sorted, lemma_entry_order, lemma_keys_strict_total,
    lemma_tree_key_injective, keys_lt, level_lt, rank, tree_key, tree_lt, EntryKind, EntryView, StoreEntry,
};
use vstd::prelude::*;
use vstd::string::*;

verus! {

/// `a` is a prefix of `b`.
pub open spec fn is_prefix(a: Seq<Seq<char>>, b: Seq<Seq<char>>) -> bool {
    a.len() <= b.len() && b.subrange(0, a.len() as int) == a
}

/// `p` lies strictly inside the directory `c`.
pub open spec fn inside(c: Seq<Seq<char>>, p: Seq<Seq<char>>) -> bool {
    c.len() < p.len() && is_prefix(c, p)
}

/// `f` occurs in `s` as a contiguous piece.
pub open spec fn contains_sub(s: Seq<char>, f: Seq<char>) -> bool {
    exists|i: int| 0 <= i && i + f.len() <= s.len() && #[trigger] s.subrange(i, i + f.len()) == f
}

/// The entry lies inside `c`, and its name holds the filter (any name does when it is empty).
pub open spec fn name_matches(c: Seq<Seq<char>>, f: Seq<char>, e: EntryView) -> bool {
    inside(c, e.path) && (f.len() == 0 || contains_sub(e.path.last(), f))
}

/// Some entry whose name matches lies below `e`.
pub open spec fn leads_to_match(ix: Seq<EntryView>, c: Seq<Seq<char>>, f: Seq<char>, e: EntryView) -> bool {
    exists|j: int|
        0 <= j < ix.len() && name_matches(c, f, #[trigger] ix[j]) && e.path.len() < ix[j].path.len()
            && is_prefix(e.path, ix[j].path)
}

/// The entry takes part in the view: its name matches, or, while filtering, it is a directory
/// on the way to a match.
pub open spec fn included(ix: Seq<EntryView>, c: Seq<Seq<char>>, f: Seq<char>, e: EntryView) -> bool {
    name_matches(c, f, e) || (f.len() > 0 && e.kind == EntryKind::Dir && inside(c, e.path)
        && leads_to_match(ix, c, f, e))
}

/// The key of `p` relative to `c`.
pub open spec fn rel_key(c: Seq<Seq<char>>, p: Seq<Seq<char>>) -> Seq<char> {
    join_key(p.subrange(c.len() as int, p.len() as int))
}

/// `q` is an included directory of the index that shows its children: every directory does
/// while filtering, else those whose key is expanded.
pub open spec fn open_dir(
    ix: Seq<EntryView>,
    c: Seq<Seq<char>>,
    f: Seq<char>,
    x: Set<Seq<char>>,
    q: Seq<Seq<char>>,
) -> bool {
    &&& (f.len() > 0 || x.contains(rel_key(c, q)))
    &&& exists|j: int|
        0 <= j < ix.len() && (#[trigger] ix[j]).kind == EntryKind::Dir && ix[j].path == q && included(
            ix,
            c,
            f,
            ix[j],
        )
}

/// The entry is shown: it is included and every directory between `c` and it is open.
pub open spec fn visible(
    ix: Seq<EntryView>,
    c: Seq<Seq<char>>,
    f: Seq<char>,
    x: Set<Seq<char>>,
    e: EntryView,
) -> bool {
    &&& included(ix, c, f, e)
    &&& forall|k: int| c.len() < k < e.path.len() ==> open_dir(ix, c, f, x, #[trigger] e.path.subrange(0, k))
}

/// The node at depth `k` on the way to `e`: a directory above it, or `e` itself.
pub open spec fn level_node(e: EntryView, k: int) -> EntryView {
    EntryView {
        path: e.path.subrange(0, k),
        kind: if k == e.path.len() { e.kind } else { EntryKind::Dir },
    }
}

/// `b` lies beside `a`: same depth, same parent.
pub open spec fn sibling(a: EntryView, b: EntryView) -> bool {
    a.path.len() > 0 && b.path.len() == a.path.len() && b.path.subrange(0, a.path.len() - 1)
        == a.path.subrange(0, a.path.len() - 1)
}

/// No shown sibling of `a` comes after it.
pub open spec fn is_last(
    ix: Seq<EntryView>,
    c: Seq<Seq<char>>,
    f: Seq<char>,
    x: Set<Seq<char>>,
    a: EntryView,
) -> bool {
    !exists|j: int|
        0 <= j < ix.len() && visible(ix, c, f, x, #[trigger] ix[j]) && sibling(a, ix[j]) && tree_lt(
            a,
            ix[j],
        )
}

/// One flag per level from `c` down to `e`: whether the node at that level is the last
/// shown one among its siblings.
pub open spec fn branches_of(
    ix: Seq<EntryView>,
    c: Seq<Seq<char>>,
    f: Seq<char>,
    x: Set<Seq<char>>,
    e: EntryView,
    b: Seq<bool>,
) -> bool {
    &&& b.len() == e.path.len() - c.len()
    &&& forall|t: int|
        0 <= t < b.len() ==> #[trigger] b[t] == is_last(ix, c, f, x, level_node(e, c.len() + t + 1))
}

/// One row of the tree: an index into the entries, and the last-sibling flag of each level.
#[derive(Clone, Debug)]
pub struct ViewRow {
    pub idx: usize,
    pub branches: Vec<bool>,
}

/// The rows of the view: each shown entry once, in depth-first tree order, with its branches.
pub open spec fn rows_exact(
    ix: Seq<EntryView>,
    c: Seq<Seq<char>>,
    f: Seq<char>,
    x: Set<Seq<char>>,
    rows: Seq<ViewRow>,
) -> bool {
    &&& forall|r: int|
        0 <= r < rows.len() ==> (#[trigger] rows[r]).idx < ix.len() && visible(
            ix,
            c,
            f,
            x,
            ix[rows[r].idx as int],
        ) && branches_of(ix, c, f, x, ix[rows[r].idx as int], rows[r].branches@)
    &&& forall|i: int|
        0 <= i < ix.len() && visible(ix, c, f, x, #[trigger] ix[i]) ==> exists|r: int|
            0 <= r < rows.len() && rows[r].idx == i
    &&& forall|r1: int, r2: int|
        0 <= r1 < r2 < rows.len() ==> tree_lt(
            ix[(#[trigger] rows[r1]).idx as int],
            ix[(#[trigger] rows[r2]).idx as int],
        )
}

/// The keys of a list, as a set.
pub open spec fn key_set(keys: Seq<String>) -> Set<Seq<char>> {
    segs_view(keys).to_set()
}

/// Whether the first `len` segments of `p` and `q` agree.
pub fn same_prefix(p: &Vec<String>, q: &Vec<String>, len: usize) -> (r: bool)
    requires
        len <= p.len(),
        len <= q.len(),
    ensures
        r == (segs_view(p@).subrange(0, len as int) == segs_view(q@).subrange(0, len as int)),
{
    let mut k: usize = 0;
    while k < len
        invariant
            len <= p.len(),
            len <= q.len(),
            k <= len,
            segs_view(p@).subrange(0, k as int) == segs_view(q@).subrange(0, k as int),
        decreases len - k,
    {
        if cmp_segment(p[k].as_str(), q[k].as_str()) != 0 {
            assert(segs_view(p@).subrange(0, len as int)[k as int] != segs_view(q@).subrange(0, len as int)[k as int]);
            return false;
        }
        assert(segs_view(p@).subrange(0, k + 1) =~= segs_view(p@).subrange(0, k as int).push(p@[k as int]@));
        assert(segs_view(q@).subrange(0, k + 1) =~= segs_view(q@).subrange(0, k as int).push(q@[k as int]@));
        k = k + 1;
    }
    true
}

/// Whether `f` occurs in `s` as a contiguous piece.
pub fn contains_text(s: &str, f: &str) -> (r: bool)
    ensures
        r == contains_sub(s@, f@),
{
    let n = s.unicode_len();
    let m = f.unicode_len();
    if m > n {
        return false;
    }
    if m == 0 {
        assert(s@.subrange(0, 0 + f@.len() as int) =~= f@);
        return true;
    }
    let mut i: usize = 0;
    while i <= n - m
        invariant
            n == s@.len(),
            m == f@.len(),
            m <= n,
            i <= n - m + 1,
            forall|k: int| 0 <= k < i ==> #[trigger] s@.subrange(k, k + m) != f@,
        decreases n - m + 1 - i,
    {
        let mut j: usize = 0;
        let mut same = true;
        assert(s@.subrange(i as int, i as int) =~= f@.subrange(0, 0));
        while j < m
            invariant
                n == s@.len(),
                m == f@.len(),
                i + m <= n,
                j <= m,
                same == (s@.subrange(i as int, i + j) == f@.subrange(0, j as int)),
            decreases m - j,
        {
            let a = s.get_char(i + j);
            let b = f.get_char(j);
            if same && a != b {
                assert(s@.subrange(i as int, i + j + 1)[j as int] != f@.subrange(0, j + 1)[j as int]);
                same = false;
            } else if same {
                assert(s@.subrange(i as int, i + j + 1) =~= s@.subrange(i as int, i + j).push(a));
                assert(f@.subrange(0, j + 1) =~= f@.subrange(0, j as int).push(b));
            } else {
                assert(s@.subrange(i as int, i + j + 1).subrange(0, j as int) =~= s@.subrange(i as int, i + j));
                assert(f@.subrange(0, j + 1).subrange(0, j as int) =~= f@.subrange(0, j as int));
            }
            j = j + 1;
        }
        assert(f@.subrange(0, m as int) =~= f@);
        if same {
            return true;
        }
        i = i + 1;
    }
    false
}

/// Whether `k` is one of `keys`.
pub fn key_in(keys: &Vec<String>, k: &str) -> (r: bool)
    ensures
        r == key_set(keys@).contains(k@),
{
    let mut i: usize = 0;
    while i < keys.len()
        invariant
            i <= keys.len(),
            forall|j: int| 0 <= j < i ==> keys@[j]@ != k@,
        decreases keys.len() - i,
    {
        if cmp_segment(keys[i].as_str(), k) == 0 {
            assert(segs_view(keys@)[i as int] == k@);
            return true;
        }
        i = i + 1;
    }
    assert(!segs_view(keys@).contains(k@));
    false
}

/// Whether `p` lies strictly inside the directory `cwd`.
pub fn inside_dir(cwd: &Vec<String>, p: &Vec<String>) -> (r: bool)
    ensures
        r == inside(segs_view(cwd@), segs_view(p@)),
{
    if p.len() <= cwd.len() {
        return false;
    }
    let r = same_prefix(p, cwd, cwd.len());
    assert(segs_view(cwd@).subrange(0, cwd.len() as int) =~= segs_view(cwd@));
    r
}

/// The segments of `p` from `from` to `to`.
pub fn sub_path(p: &Vec<String>, from: usize, to: usize) -> (r: Vec<String>)
    requires
        from <= to <= p.len(),
    ensures
        segs_view(r@) == segs_view(p@).subrange(from as int, to as int),
{
    let mut r: Vec<String> = Vec::new();
    let mut i: usize = from;
    while i < to
        invariant
            from <= i <= to <= p.len(),
            r@.len() == i - from,
            forall|k: int| 0 <= k < i - from ==> (#[trigger] r@[k])@ == p@[from + k]@,
        decreases to - i,
    {
        r.push(p[i].clone());
        i = i + 1;
    }
    assert(segs_view(r@) =~= segs_view(p@).subrange(from as int, to as int));
    r
}

/// For each entry, whether its name matches within `cwd`.
fn match_flags(entries: &Vec<StoreEntry>, cwd: &Vec<String>, filter: &str) -> (m: Vec<bool>)
    ensures
        m@.len() == entries@.len(),
        forall|i: int|
            0 <= i < m@.len() ==> #[trigger] m@[i] == name_matches(
                segs_view(cwd@),
                filter@,
                entries_view(entries@)[i],
            ),
{
    let mut m: Vec<bool> = Vec::new();
    let mut i: usize = 0;
    while i < entries.len()
        invariant
            i <= entries.len(),
            m@.len() == i,
            forall|k: int|
                0 <= k < i ==> #[trigger] m@[k] == name_matches(
                    segs_view(cwd@),
                    filter@,
                    entries_view(entries@)[k],
                ),
        decreases entries.len() - i,
    {
        let e = &entries[i];
        let mut ok = inside_dir(cwd, &e.path);
        if ok && filter.unicode_len() > 0 {
            let n = e.path.len();
            ok = contains_text(e.path[n - 1].as_str(), filter);
        }
        m.push(ok);
        i = i + 1;
    }
    m
}

/// For each entry, whether it takes part in the view.
fn include_flags(entries: &Vec<StoreEntry>, cwd: &Vec<String>, filter: &str, m: &Vec<bool>) -> (inc: Vec<bool>)
    requires
        m@.len() == entries@.len(),
        forall|i: int|
            0 <= i < m@.len() ==> #[trigger] m@[i] == name_matches(
                segs_view(cwd@),
                filter@,
                entries_view(entries@)[i],
            ),
    ensures
        inc@.len() == entries@.len(),
        forall|i: int|
            0 <= i < inc@.len() ==> #[trigger] inc@[i] == included(
                entries_view(entries@),
                segs_view(cwd@),
                filter@,
                entries_view(entries@)[i],
            ),
{
    let ghost ix = entries_view(entries@);
    let ghost c = segs_view(cwd@);
    let filtering = filter.unicode_len() > 0;
    let mut inc: Vec<bool> = Vec::new();
    let mut i: usize = 0;
    while i < entries.len()
        invariant
            ix == entries_view(entries@),
            c == segs_view(cwd@),
            filtering == (filter@.len() > 0),
            m@.len() == entries@.len(),
            forall|k: int| 0 <= k < m@.len() ==> #[trigger] m@[k] == name_matches(c, filter@, ix[k]),
            i <= entries.len(),
            inc@.len() == i,
            forall|k: int| 0 <= k < i ==> #[trigger] inc@[k] == included(ix, c, filter@, ix[k]),
        decreases entries.len() - i,
    {
        let e = &entries[i];
        let mut ok = m[i];
        assert(ix[i as int] == e@);
        if !ok && filtering && e.kind == EntryKind::Dir && inside_dir(cwd, &e.path) {
            let mut j: usize = 0;
            while j < entries.len() && !ok
                invariant
                    ix == entries_view(entries@),
                    m@.len() == entries@.len(),
                    forall|k: int| 0 <= k < m@.len() ==> #[trigger] m@[k] == name_matches(c, filter@, ix[k]),
                    i < entries.len(),
                    ix[i as int] == e@,
                    j <= entries.len(),
                    ok ==> leads_to_match(ix, c, filter@, ix[i as int]),
                    !ok ==> forall|k: int|
                        0 <= k < j ==> !(name_matches(c, filter@, #[trigger] ix[k]) && ix[i as int].path.len()
                            < ix[k].path.len() && is_prefix(ix[i as int].path, ix[k].path)),
                decreases entries.len() - j, (if ok { 0int } else { 1int }),
            {
                let d = &entries[j];
                if m[j] && d.path.len() > e.path.len() && same_prefix(&d.path, &e.path, e.path.len()) {
                    assert(segs_view(e.path@).subrange(0, e.path.len() as int) =~= segs_view(e.path@));
                    assert(ix[j as int] == d@);
                    ok = true;
                } else {
                    proof {
                        if d.path.len() > e.path.len() && m[j as int] {
                            assert(segs_view(e.path@).subrange(0, e.path.len() as int) =~= segs_view(e.path@));
                        }
                    }
                    j = j + 1;
                }
            }
        }
        inc.push(ok);
        i = i + 1;
    }
    inc
}

/// For each entry, whether the view shows it.
fn visible_flags(
    entries: &Vec<StoreEntry>,
    cwd: &Vec<String>,
    filter: &str,
    expanded: &Vec<String>,
    inc: &Vec<bool>,
) -> (vis: Vec<bool>)
    requires
        inc@.len() == entries@.len(),
        forall|i: int|
            0 <= i < inc@.len() ==> #[trigger] inc@[i] == included(
                entries_view(entries@),
                segs_view(cwd@),
                filter@,
                entries_view(entries@)[i],
            ),
    ensures
        vis@.len() == entries@.len(),
        forall|i: int|
            0 <= i < vis@.len() ==> #[trigger] vis@[i] == visible(
                entries_view(entries@),
                segs_view(cwd@),
                filter@,
                key_set(expanded@),
                entries_view(entries@)[i],
            ),
{
    let ghost ix = entries_view(entries@);
    let ghost c = segs_view(cwd@);
    let ghost x = key_set(expanded@);
    let filtering = filter.unicode_len() > 0;
    let mut vis: Vec<bool> = Vec::new();
    let mut i: usize = 0;
    while i < entries.len()
        invariant
            ix == entries_view(entries@),
            c == segs_view(cwd@),
            x == key_set(expanded@),
            filtering == (filter@.len() > 0),
            inc@.len() == entries@.len(),
            forall|k: int| 0 <= k < inc@.len() ==> #[trigger] inc@[k] == included(ix, c, filter@, ix[k]),
            i <= entries.len(),
            vis@.len() == i,
            forall|k: int| 0 <= k < i ==> #[trigger] vis@[k] == visible(ix, c, filter@, x, ix[k]),
        decreases entries.len() - i,
    {
        let e = &entries[i];
        let ghost p = ix[i as int].path;
        let mut ok = inc[i];
        assert(ix[i as int] == e@);
        if ok {
            assert(inside(c, p));
            let plen = e.path.len();
            assert(c.len() == cwd@.len() && p.len() == plen);
            let mut k: usize = cwd.len() + 1;
            while k < e.path.len() && ok
                invariant
                    ix == entries_view(entries@),
                    c == segs_view(cwd@),
                    x == key_set(expanded@),
                    filtering == (filter@.len() > 0),
                    inc@.len() == entries@.len(),
                    forall|q: int| 0 <= q < inc@.len() ==> #[trigger] inc@[q] == included(ix, c, filter@, ix[q]),
                    i < entries.len(),
                    p == ix[i as int].path,
                    p == segs_view(e.path@),
                    inc@[i as int],
                    inside(c, p),
                    c.len() + 1 <= k,
                    ok ==> forall|q: int| c.len() < q < k && q < p.len() ==> open_dir(ix, c, filter@, x, #[trigger] p.subrange(0, q)),
                    !ok ==> exists|q: int| c.len() < q < p.len() && !open_dir(ix, c, filter@, x, #[trigger] p.subrange(0, q)),
                decreases e.path.len() - k, (if ok { 1int } else { 0int }),
            {
                let ghost q = p.subrange(0, k as int);
                let mut open = filtering;
                if !open {
                    let rel = sub_path(&e.path, cwd.len(), k);
                    let key = path_to_store_key(&rel);
                    open = key_in(expanded, key.as_str());
                    assert(q.subrange(c.len() as int, k as int) =~= p.subrange(c.len() as int, k as int));
                }
                if open {
                    let mut found = false;
                    let mut j: usize = 0;
                    while j < entries.len() && !found
                        invariant
                            ix == entries_view(entries@),
                            inc@.len() == entries@.len(),
                            forall|q2: int| 0 <= q2 < inc@.len() ==> #[trigger] inc@[q2] == included(ix, c, filter@, ix[q2]),
                            i < entries.len(),
                            p == ix[i as int].path,
                            p == segs_view(e.path@),
                            k < p.len(),
                            q == p.subrange(0, k as int),
                            j <= entries.len(),
                            found ==> exists|jj: int| 0 <= jj < ix.len() && (#[trigger] ix[jj]).kind == EntryKind::Dir && ix[jj].path == q && included(ix, c, filter@, ix[jj]),
                            !found ==> forall|jj: int| 0 <= jj < j ==> !((#[trigger] ix[jj]).kind == EntryKind::Dir && ix[jj].path == q && included(ix, c, filter@, ix[jj])),
                        decreases entries.len() - j, (if found { 0int } else { 1int }),
                    {
                        let d = &entries[j];
                        assert(ix[j as int] == d@);
                        if inc[j] && d.kind == EntryKind::Dir && d.path.len() == k && same_prefix(&d.path, &e.path, k) {
                            assert(segs_view(d.path@).subrange(0, k as int) =~= segs_view(d.path@));
                            found = true;
                        } else {
                            proof {
                                if d.path.len() == k {
                                    assert(segs_view(d.path@).subrange(0, k as int) =~= segs_view(d.path@));
                                }
                            }
                            j = j + 1;
                        }
                    }
                    open = found;
                }
                if !open {
                    ok = false;
                } else {
                    k = k + 1;
                }
            }
        }
        vis.push(ok);
        i = i + 1;
    }
    vis
}

/// The facts of a strict order, for three given entries in tree order; it is total on
/// entries with non-empty paths.
pub proof fn lemma_tree_order(a: EntryView, b: EntryView, c: EntryView)
    ensures
        !tree_lt(a, a),
        tree_lt(a, b) && tree_lt(b, c) ==> tree_lt(a, c),
        a.path.len() > 0 && a != b ==> tree_lt(a, b) || tree_lt(b, a),
{
    lemma_keys_strict_total();
    let l = |x: Seq<(int, Seq<char>)>, y: Seq<(int, Seq<char>)>| keys_lt(x, y);
    let ka = tree_key(a.path, a.kind);
    let kb = tree_key(b.path, b.kind);
    let kc = tree_key(c.path, c.kind);
    assert(!l(ka, ka));
    if l(ka, kb) && l(kb, kc) {
        assert(l(ka, kc));
    }
    if a.path.len() > 0 && a != b {
        if ka == kb {
            lemma_tree_key_injective(a, b);
        } else {
            assert(l(ka, kb) || l(kb, ka));
        }
    }
}

/// The shown entries, in tree order.
fn shown_in_order(entries: &Vec<StoreEntry>, cwd: &Vec<String>, vis: &Vec<bool>) -> (out: Vec<usize>)
    requires
        index_sorted(entries_view(entries@)),
        vis@.len() == entries@.len(),
        forall|i: int| 0 <= i < vis@.len() && #[trigger] vis@[i] ==> inside(segs_view(cwd@), entries_view(entries@)[i].path),
    ensures
        forall|r: int| 0 <= r < out@.len() ==> #[trigger] out@[r] < entries@.len() && vis@[out@[r] as int],
        forall|i: int| 0 <= i < vis@.len() && #[trigger] vis@[i] ==> exists|r: int| 0 <= r < out@.len() && out@[r] == i,
        forall|r1: int, r2: int|
            0 <= r1 < r2 < out@.len() ==> tree_lt(
                entries_view(entries@)[#[trigger] out@[r1] as int],
                entries_view(entries@)[#[trigger] out@[r2] as int],
            ),
{
    let ghost ix = entries_view(entries@);
    let mut out: Vec<usize> = Vec::new();
    let mut i: usize = 0;
    while i < entries.len()
        invariant
            ix == entries_view(entries@),
            index_sorted(ix),
            vis@.len() == entries@.len(),
            forall|q: int| 0 <= q < vis@.len() && #[trigger] vis@[q] ==> inside(segs_view(cwd@), ix[q].path),
            i <= entries.len(),
            forall|r: int| 0 <= r < out@.len() ==> #[trigger] out@[r] < i && vis@[out@[r] as int],
            forall|q: int| 0 <= q < i && #[trigger] vis@[q] ==> exists|r: int| 0 <= r < out@.len() && out@[r] == q,
            forall|r1: int, r2: int|
                0 <= r1 < r2 < out@.len() ==> tree_lt(ix[#[trigger] out@[r1] as int], ix[#[trigger] out@[r2] as int]),
        decreases entries.len() - i,
    {
        if vis[i] {
            let ghost ei = ix[i as int];
            let mut pos: usize = 0;
            let mut c: i8 = -1;
            while pos < out.len() && c < 0
                invariant
                    ix == entries_view(entries@),
                    i < entries.len(),
                    ei == ix[i as int],
                    pos <= out@.len(),
                    forall|r: int| 0 <= r < out@.len() ==> #[trigger] out@[r] < i,
                    forall|r: int| 0 <= r < pos ==> tree_lt(ix[#[trigger] out@[r] as int], ei),
                    c >= 0 ==> pos < out@.len() && !tree_lt(ix[out@[pos as int] as int], ei),
                decreases out@.len() - pos, (if c < 0 { 1int } else { 0int }),
            {
                let j = out[pos];
                c = cmp_tree(&entries[j].path, entries[j].kind, &entries[i].path, entries[i].kind);
                assert(ix[j as int] == entries@[j as int]@);
                assert(ix[i as int] == entries@[i as int]@);
                if c < 0 {
                    pos = pos + 1;
                }
            }
            let ghost old_out = out@;
            out.insert(pos, i);
            proof {
                old_out.insert_ensures(pos as int, i);
                assert(out@ == old_out.insert(pos as int, i));
                if pos < old_out.len() {
                    let z = ix[old_out[pos as int] as int];
                    assert(old_out[pos as int] < i);
                    let a = old_out[pos as int] as int;
                    assert(entry_lt(ix[a], ix[i as int]));
                    lemma_entry_order(ix[a], ix[a], ix[a]);
                    lemma_tree_order(ei, z, z);
                    assert(tree_lt(ei, z));
                }
                assert forall|r1: int, r2: int| 0 <= r1 < r2 < out@.len() implies tree_lt(
                    ix[#[trigger] out@[r1] as int],
                    ix[#[trigger] out@[r2] as int],
                ) by {
                    if r2 < pos {
                        assert(out@[r1] == old_out[r1] && out@[r2] == old_out[r2]);
                    } else if r2 == pos {
                        assert(out@[r1] == old_out[r1] && out@[r2] == i);
                    } else if r1 == pos {
                        assert(out@[r1] == i && out@[r2] == old_out[r2 - 1]);
                        let z = ix[old_out[pos as int] as int];
                        if r2 - 1 > pos {
                            assert(tree_lt(z, ix[old_out[r2 - 1] as int]));
                        }
                        lemma_tree_order(ei, z, ix[old_out[r2 - 1] as int]);
                    } else if r1 < pos {
                        assert(out@[r1] == old_out[r1] && out@[r2] == old_out[r2 - 1]);
                        let z = ix[old_out[pos as int] as int];
                        let y = ix[old_out[r2 - 1] as int];
                        if r2 - 1 > pos {
                            assert(tree_lt(z, y));
                        }
                        lemma_tree_order(ei, z, y);
                        lemma_tree_order(ix[old_out[r1] as int], ei, y);
                    } else {
                        assert(out@[r1] == old_out[r1 - 1] && out@[r2] == old_out[r2 - 1]);
                    }
                }
                assert forall|q: int| 0 <= q < i + 1 && #[trigger] vis@[q] implies exists|r: int| 0 <= r < out@.len() && out@[r] == q by {
                    if q == i {
                        assert(out@[pos as int] == i);
                    } else {
                        let r = choose|r: int| 0 <= r < old_out.len() && old_out[r] == q;
                        if r < pos {
                            assert(out@[r] == q);
                        } else {
                            assert(out@[r + 1] == q);
                        }
                    }
                }
                assert forall|r: int| 0 <= r < out@.len() implies #[trigger] out@[r] < i + 1 && vis@[out@[r] as int] by {
                    if r < pos {
                        assert(out@[r] == old_out[r]);
                    } else if r > pos {
                        assert(out@[r] == old_out[r - 1]);
                    }
                }
            }
        }
        i = i + 1;
    }
    out
}

/// Whether no shown sibling of the node `(a_path, a_kind)` comes after it.
fn last_among_siblings(
    entries: &Vec<StoreEntry>,
    cwd: &Vec<String>,
    filter: &str,
    expanded: &Vec<String>,
    vis: &Vec<bool>,
    a_path: &Vec<String>,
    a_kind: EntryKind,
) -> (r: bool)
    requires
        a_path@.len() > 0,
        vis@.len() == entries@.len(),
        forall|i: int|
            0 <= i < vis@.len() ==> #[trigger] vis@[i] == visible(
                entries_view(entries@),
                segs_view(cwd@),
                filter@,
                key_set(expanded@),
                entries_view(entries@)[i],
            ),
    ensures
        r == is_last(
            entries_view(entries@),
            segs_view(cwd@),
            filter@,
            key_set(expanded@),
            EntryView { path: segs_view(a_path@), kind: a_kind },
        ),
{
    let ghost ix = entries_view(entries@);
    let ghost a = EntryView { path: segs_view(a_path@), kind: a_kind };
    let k = a_path.len();
    let mut j: usize = 0;
    while j < entries.len()
        invariant
            ix == entries_view(entries@),
            a == (EntryView { path: segs_view(a_path@), kind: a_kind }),
            k == a_path@.len(),
            k > 0,
            vis@.len() == entries@.len(),
            forall|i: int|
                0 <= i < vis@.len() ==> #[trigger] vis@[i] == visible(ix, segs_view(cwd@), filter@, key_set(expanded@), ix[i]),
            j <= entries.len(),
            forall|q: int|
                0 <= q < j ==> !(visible(ix, segs_view(cwd@), filter@, key_set(expanded@), #[trigger] ix[q]) && sibling(a, ix[q])
                    && tree_lt(a, ix[q])),
        decreases entries.len() - j,
    {
        let d = &entries[j];
        assert(ix[j as int] == d@);
        if vis[j] && d.path.len() == k && same_prefix(&d.path, a_path, k - 1) {
            let c = cmp_tree(a_path, a_kind, &d.path, d.kind);
            if c < 0 {
                return false;
            }
        }
        j = j + 1;
    }
    true
}

/// The last-sibling flag of each level from `cwd` down to entry `i`.
fn branches_for(
    entries: &Vec<StoreEntry>,
    cwd: &Vec<String>,
    filter: &str,
    expanded: &Vec<String>,
    vis: &Vec<bool>,
    i: usize,
) -> (b: Vec<bool>)
    requires
        i < entries@.len(),
        inside(segs_view(cwd@), entries_view(entries@)[i as int].path),
        vis@.len() == entries@.len(),
        forall|q: int|
            0 <= q < vis@.len() ==> #[trigger] vis@[q] == visible(
                entries_view(entries@),
                segs_view(cwd@),
                filter@,
                key_set(expanded@),
                entries_view(entries@)[q],
            ),
    ensures
        branches_of(
            entries_view(entries@),
            segs_view(cwd@),
            filter@,
            key_set(expanded@),
            entries_view(entries@)[i as int],
            b@,
        ),
{
    let ghost ix = entries_view(entries@);
    let ghost e = ix[i as int];
    let p = &entries[i].path;
    let kind = entries[i].kind;
    assert(e == entries@[i as int]@);
    let n = p.len();
    let cl = cwd.len();
    let mut b: Vec<bool> = Vec::new();
    let mut t: usize = 0;
    while t < n - cl
        invariant
            ix == entries_view(entries@),
            e == ix[i as int],
            e.path == segs_view(p@),
            e.kind == kind,
            n == p@.len(),
            cl == cwd@.len(),
            cl < n,
            vis@.len() == entries@.len(),
            forall|q: int|
                0 <= q < vis@.len() ==> #[trigger] vis@[q] == visible(ix, segs_view(cwd@), filter@, key_set(expanded@), ix[q]),
            t <= n - cl,
            b@.len() == t,
            forall|s: int|
                0 <= s < t ==> #[trigger] b@[s] == is_last(ix, segs_view(cwd@), filter@, key_set(expanded@), level_node(e, cl + s + 1)),
        decreases n - cl - t,
    {
        let k = cl + t + 1;
        let a_path = sub_path(p, 0, k);
        let a_kind = if k == n { kind } else { EntryKind::Dir };
        assert(segs_view(a_path@).len() == a_path@.len());
        assert(level_node(e, k as int) == EntryView { path: segs_view(a_path@), kind: a_kind });
        let last = last_among_siblings(entries, cwd, filter, expanded, vis, &a_path, a_kind);
        b.push(last);
        t = t + 1;
    }
    b
}

/// The rows of the view of `entries` from `cwd`, filtered by `filter`, with the directories
/// whose keys (relative to `cwd`) are in `expanded` open.
pub fn compute_rows(entries: &Vec<StoreEntry>, cwd: &Vec<String>, filter: &str, expanded: &Vec<String>) -> (rows: Vec<ViewRow>)
    requires
        index_sorted(entries_view(entries@)),
    ensures
        rows_exact(entries_view(entries@), segs_view(cwd@), filter@, key_set(expanded@), rows@),
{
    let ghost ix = entries_view(entries@);
    let ghost c = segs_view(cwd@);
    let ghost x = key_set(expanded@);
    let m = match_flags(entries, cwd, filter);
    let inc = include_flags(entries, cwd, filter, &m);
    let vis = visible_flags(entries, cwd, filter, expanded, &inc);
    assert forall|i: int| 0 <= i < vis@.len() && #[trigger] vis@[i] implies inside(c, ix[i].path) by {
        assert(included(ix, c, filter@, ix[i]));
    }
    let order = shown_in_order(entries, cwd, &vis);
    let mut rows: Vec<ViewRow> = Vec::new();
    let mut r: usize = 0;
    while r < order.len()
        invariant
            ix == entries_view(entries@),
            c == segs_view(cwd@),
            x == key_set(expanded@),
            vis@.len() == entries@.len(),
            forall|q: int| 0 <= q < vis@.len() ==> #[trigger] vis@[q] == visible(ix, c, filter@, x, ix[q]),
            forall|q: int| 0 <= q < vis@.len() && #[trigger] vis@[q] ==> inside(c, ix[q].path),
            forall|q: int| 0 <= q < order@.len() ==> #[trigger] order@[q] < entries@.len() && vis@[order@[q] as int],
            r <= order@.len(),
            rows@.len() == r,
            forall|q: int|
                0 <= q < r ==> (#[trigger] rows@[q]).idx == order@[q] && branches_of(
                    ix,
                    c,
                    filter@,
                    x,
                    ix[rows@[q].idx as int],
                    rows@[q].branches@,
                ),
        decreases order@.len() - r,
    {
        let i = order[r];
        assert(vis@[i as int]);
        let b = branches_for(entries, cwd, filter, expanded, &vis, i);
        rows.push(ViewRow { idx: i, branches: b });
        r = r + 1;
    }
    proof {
        assert forall|i: int| 0 <= i < ix.len() && visible(ix, c, filter@, x, #[trigger] ix[i]) implies exists|q: int|
            0 <= q < rows@.len() && rows@[q].idx == i by {
            assert(vis@[i]);
            let q = choose|q: int| 0 <= q < order@.len() && order@[q] == i;
            assert(rows@[q].idx == i);
        }
        assert forall|r1: int, r2: int| 0 <= r1 < r2 < rows@.len() implies tree_lt(
            ix[(#[trigger] rows@[r1]).idx as int],
            ix[(#[trigger] rows@[r2]).idx as int],
        ) by {
            assert(rows@[r1].idx == order@[r1] && rows@[r2].idx == order@[r2]);
        }
    }
    rows
}

/// Every directory between `cwd` and a shown entry is shown too; so, while filtering, a
/// matching entry is always reachable through its parents.
pub proof fn lemma_ancestors_shown(
    ix: Seq<EntryView>,
    c: Seq<Seq<char>>,
    f: Seq<char>,
    x: Set<Seq<char>>,
    rows: Seq<ViewRow>,
    r: int,
    k: int,
)
    requires
        rows_exact(ix, c, f, x, rows),
        0 <= r < rows.len(),
        c.len() < k < ix[rows[r].idx as int].path.len(),
    ensures
        exists|r2: int|
            0 <= r2 < rows.len() && ix[(#[trigger] rows[r2]).idx as int].path == ix[rows[r].idx as int].path.subrange(0, k)
                && ix[rows[r2].idx as int].kind == EntryKind::Dir,
{
    let e = ix[rows[r].idx as int];
    let p = e.path;
    assert(visible(ix, c, f, x, e));
    assert(open_dir(ix, c, f, x, p.subrange(0, k)));
    let j = choose|j: int|
        0 <= j < ix.len() && (#[trigger] ix[j]).kind == EntryKind::Dir && ix[j].path == p.subrange(0, k) && included(ix, c, f, ix[j]);
    assert forall|k2: int| c.len() < k2 < ix[j].path.len() implies open_dir(ix, c, f, x, #[trigger] ix[j].path.subrange(0, k2)) by {
        assert(ix[j].path.subrange(0, k2) =~= p.subrange(0, k2));
        assert(open_dir(ix, c, f, x, p.subrange(0, k2)));
    }
    assert(visible(ix, c, f, x, ix[j]));
    let r2 = choose|r2: int| 0 <= r2 < rows.len() && rows[r2].idx == j;
    assert(ix[rows[r2].idx as int].path == p.subrange(0, k));
}

proof fn lemma_lex_common_prefix<A>(a: Seq<A>, b: Seq<A>, m: int, lt: spec_fn(A, A) -> bool)
    requires
        0 <= m <= a.len(),
        m <= b.len(),
        a.subrange(0, m) == b.subrange(0, m),
    ensures
        lex_lt(a, b, lt) == lex_lt(a.subrange(m, a.len() as int), b.subrange(m, b.len() as int), lt),
    decreases m,
{
    if m > 0 {
        assert(a[0] == a.subrange(0, m)[0]);
        assert(b[0] == b.subrange(0, m)[0]);
        assert forall|i: int| 0 <= i < m - 1 implies #[trigger] a.drop_first()[i] == b.drop_first()[i] by {
            assert(a.subrange(0, m)[i + 1] == a[i + 1]);
            assert(b.subrange(0, m)[i + 1] == b[i + 1]);
        }
        assert(a.drop_first().subrange(0, m - 1) =~= b.drop_first().subrange(0, m - 1));
        lemma_lex_common_prefix(a.drop_first(), b.drop_first(), m - 1, lt);
        assert(a.drop_first().subrange(m - 1, a.len() - 1) =~= a.subrange(m, a.len() as int));
        assert(b.drop_first().subrange(m - 1, b.len() - 1) =~= b.subrange(m, b.len() as int));
    } else {
        assert(a.subrange(0, a.len() as int) =~= a);
        assert(b.subrange(0, b.len() as int) =~= b);
    }
}

/// Keys of siblings share all levels but the last.
proof fn lemma_sibling_keys(a: EntryView, b: EntryView, ka: EntryKind, kb: EntryKind)
    requires
        sibling(a, b),
    ensures
        tree_key(a.path, ka).subrange(0, a.path.len() - 1) == tree_key(b.path, kb).subrange(0, a.path.len() - 1),
{
    let n = a.path.len() - 1;
    assert forall|i: int| 0 <= i < n implies tree_key(a.path, ka).subrange(0, n)[i] == tree_key(b.path, kb).subrange(0, n)[i] by {
        assert(a.path[i] == a.path.subrange(0, n)[i]);
        assert(b.path[i] == b.path.subrange(0, n)[i]);
    }
    assert(tree_key(a.path, ka).subrange(0, n) =~= tree_key(b.path, kb).subrange(0, n));
}

/// Among siblings the tree order is the index order: directories first, then by path.
pub proof fn lemma_siblings_tree_is_index_order(a: EntryView, b: EntryView)
    requires
        sibling(a, b),
        tree_lt(a, b),
    ensures
        entry_lt(a, b),
{
    let n = a.path.len() - 1;
    let lv = |x: (int, Seq<char>), y: (int, Seq<char>)| level_lt(x, y);
    let ta = tree_key(a.path, a.kind);
    let tb = tree_key(b.path, b.kind);
    let da = tree_key(a.path, EntryKind::Dir);
    let db = tree_key(b.path, EntryKind::Dir);
    lemma_sibling_keys(a, b, a.kind, b.kind);
    lemma_sibling_keys(a, b, EntryKind::Dir, EntryKind::Dir);
    lemma_lex_common_prefix(ta, tb, n, lv);
    lemma_lex_common_prefix(da, db, n, lv);
    let xa = ta.subrange(n, n + 1);
    let xb = tb.subrange(n, n + 1);
    assert(xa.drop_first().len() == 0 && xb.drop_first().len() == 0);
    assert(xa[0] == (rank(a.kind), a.path.last()));
    assert(xb[0] == (rank(b.kind), b.path.last()));
    let ya = da.subrange(n, n + 1);
    let yb = db.subrange(n, n + 1);
    assert(ya.drop_first().len() == 0 && yb.drop_first().len() == 0);
    assert(ya[0] == (0int, a.path.last()));
    assert(yb[0] == (0int, b.path.last()));
    lemma_seg_order(a.path.last(), b.path.last(), b.path.last());
    if xa[0] == xb[0] {
        assert(!lex_lt(xa.drop_first(), xb.drop_first(), lv));
        assert(!lex_lt(xa, xb, lv));
    }
    assert(level_lt(xa[0], xb[0]));
}

/// Siblings are shown directories first, each kind in path order, whatever the filter.
pub proof fn lemma_sibling_order(
    ix: Seq<EntryView>,
    c: Seq<Seq<char>>,
    f: Seq<char>,
    x: Set<Seq<char>>,
    rows: Seq<ViewRow>,
    r1: int,
    r2: int,
)
    requires
        rows_exact(ix, c, f, x, rows),
        0 <= r1 < r2 < rows.len(),
        sibling(ix[rows[r1].idx as int], ix[rows[r2].idx as int]),
    ensures
        entry_lt(ix[rows[r1].idx as int], ix[rows[r2].idx as int]),
{
    lemma_siblings_tree_is_index_order(ix[rows[r1].idx as int], ix[rows[r2].idx as int]);
}

proof fn lemma_rows_agree_upto(
    ix: Seq<EntryView>,
    c: Seq<Seq<char>>,
    f: Seq<char>,
    x: Set<Seq<char>>,
    a: Seq<ViewRow>,
    b: Seq<ViewRow>,
    q: int,
)
    requires
        rows_exact(ix, c, f, x, a),
        rows_exact(ix, c, f, x, b),
        0 <= q <= a.len(),
        q <= b.len(),
    ensures
        forall|s: int| 0 <= s < q ==> (#[trigger] a[s]).idx == b[s].idx,
    decreases q,
{
    if q > 0 {
        lemma_rows_agree_upto(ix, c, f, x, a, b, q - 1);
        let s = q - 1;
        let ea = ix[a[s].idx as int];
        let eb = ix[b[s].idx as int];
        let pa = choose|p: int| 0 <= p < b.len() && b[p].idx == a[s].idx;
        let pb = choose|p: int| 0 <= p < a.len() && a[p].idx == b[s].idx;
        lemma_tree_order(ea, ea, ea);
        lemma_tree_order(eb, eb, eb);
        if pa < s {
            assert(a[pa].idx == b[pa].idx);
            assert(tree_lt(ix[a[pa].idx as int], ea));
        }
        if pb < s {
            assert(a[pb].idx == b[pb].idx);
            assert(tree_lt(ix[b[pb].idx as int], eb));
        }
        if pa > s && pb > s {
            assert(tree_lt(eb, ix[b[pa].idx as int]));
            assert(tree_lt(ea, ix[a[pb].idx as int]));
            lemma_tree_order(ea, eb, ea);
        }
    }
}

proof fn lemma_rows_same_len(
    ix: Seq<EntryView>,
    c: Seq<Seq<char>>,
    f: Seq<char>,
    x: Set<Seq<char>>,
    a: Seq<ViewRow>,
    b: Seq<ViewRow>,
)
    requires
        rows_exact(ix, c, f, x, a),
        rows_exact(ix, c, f, x, b),
        a.len() >= b.len(),
    ensures
        a.len() == b.len(),
{
    if a.len() > b.len() {
        lemma_rows_agree_upto(ix, c, f, x, a, b, b.len() as int);
        let s = b.len() as int;
        let ea = ix[a[s].idx as int];
        let p = choose|p: int| 0 <= p < b.len() && b[p].idx == a[s].idx;
        assert(a[p].idx == b[p].idx);
        assert(tree_lt(ix[a[p].idx as int], ea));
        lemma_tree_order(ea, ea, ea);
    }
}

/// The rows are determined by the index, the directory, the filter and the expanded keys:
/// computing them again with nothing changed gives the same rows.
pub proof fn lemma_rows_determined(
    ix: Seq<EntryView>,
    c: Seq<Seq<char>>,
    f: Seq<char>,
    x: Set<Seq<char>>,
    a: Seq<ViewRow>,
    b: Seq<ViewRow>,
)
    requires
        rows_exact(ix, c, f, x, a),
        rows_exact(ix, c, f, x, b),
    ensures
        a.len() == b.len(),
        forall|s: int| 0 <= s < a.len() ==> (#[trigger] a[s]).idx == b[s].idx && a[s].branches@ == b[s].branches@,
{
    if a.len() >= b.len() {
        lemma_rows_same_len(ix, c, f, x, a, b);
    } else {
        lemma_rows_same_len(ix, c, f, x, b, a);
    }
    lemma_rows_agree_upto(ix, c, f, x, a, b, a.len() as int);
    assert forall|s: int| 0 <= s < a.len() implies (#[trigger] a[s]).idx == b[s].idx && a[s].branches@ == b[s].branches@ by {
        let e = ix[a[s].idx as int];
        assert(branches_of(ix, c, f, x, e, a[s].branches@));
        assert(branches_of(ix, c, f, x, e, b[s].branches@));
        assert(a[s].branches@ =~= b[s].branches@);
    }
}

/// An entry is shown on one row at most, so its row fixes its position.
pub proof fn lemma_row_position_unique(
    ix: Seq<EntryView>,
    c: Seq<Seq<char>>,
    f: Seq<char>,
    x: Set<Seq<char>>,
    rows: Seq<ViewRow>,
    a: int,
    b: int,
)
    requires
        rows_exact(ix, c, f, x, rows),
        0 <= a < rows.len(),
        0 <= b < rows.len(),
        rows[a].idx == rows[b].idx,
    ensures
        a == b,
{
    let e = ix[rows[a].idx as int];
    lemma_tree_order(e, e, e);
    if a < b {
        assert(tree_lt(ix[rows[a].idx as int], ix[rows[b].idx as int]));
    } else if b < a {
        assert(tree_lt(ix[rows[b].idx as int], ix[rows[a].idx as int]));
    }
}

} // verus!
