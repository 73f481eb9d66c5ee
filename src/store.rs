//! Store entries, their orders, and the index built from a scan of the store.
use crate::codec::{join_key, path_to_store_key, segs_view};
use crate::order::{cmp_segment, lemma_lex_strict_total, lemma_seg_order, lex_lt, seg_lt, strict_total};
use vstd::prelude::*;
use vstd::string::*;

verus! {

/// Whether a store node is a directory or a leaf entry.
#[derive(Clone, Copy, PartialEq, Eq, Structural, Debug)]
pub enum EntryKind {
    Dir,
    Entry,
}

/// One node of the store: its path below the store root and its kind.
/// A leaf's path carries no content-file suffix.
#[derive(Clone, Debug)]
pub struct StoreEntry {
    pub path: Vec<String>,
    pub kind: EntryKind,
}

/// What an entry is: its segments and its kind.
pub struct EntryView {
    pub path: Seq<Seq<char>>,
    pub kind: EntryKind,
}

impl View for StoreEntry {
    type V = EntryView;

    open spec fn view(&self) -> EntryView {
        EntryView { path: segs_view(self.path@), kind: self.kind }
    }
}

/// The entries of an index, as views.
pub open spec fn entries_view(entries: Seq<StoreEntry>) -> Seq<EntryView> {
    entries.map_values(|e: StoreEntry| e@)
}

/// The synthetic root directory.
pub open spec fn root_view() -> EntryView {
    EntryView { path: Seq::empty(), kind: EntryKind::Dir }
}

/// Directories rank before leaves.
pub open spec fn rank(k: EntryKind) -> int {
    match k {
        EntryKind::Dir => 0,
        EntryKind::Entry => 1,
    }
}

/// The sort key of each level of a path: a leaf ranks after directories at its own level,
/// and every ancestor level is a directory.
pub open spec fn tree_key(path: Seq<Seq<char>>, kind: EntryKind) -> Seq<(int, Seq<char>)> {
    Seq::new(
        path.len(),
        |t: int| (if t == path.len() - 1 { rank(kind) } else { 0 }, path[t]),
    )
}

/// Order of two level keys: rank first, then the segment.
pub open spec fn level_lt(x: (int, Seq<char>), y: (int, Seq<char>)) -> bool {
    x.0 < y.0 || (x.0 == y.0 && seg_lt(x.1, y.1))
}

/// Order of two key sequences.
pub open spec fn keys_lt(a: Seq<(int, Seq<char>)>, b: Seq<(int, Seq<char>)>) -> bool {
    lex_lt(a, b, |x: (int, Seq<char>), y: (int, Seq<char>)| level_lt(x, y))
}

/// Depth-first order of the tree: siblings are directories first, each kind in path order,
/// and a directory comes right before its descendants.
pub open spec fn tree_lt(a: EntryView, b: EntryView) -> bool {
    keys_lt(tree_key(a.path, a.kind), tree_key(b.path, b.kind))
}

/// Order of paths, segment by segment; a proper prefix comes first.
pub open spec fn path_lt(p: Seq<Seq<char>>, q: Seq<Seq<char>>) -> bool {
    keys_lt(tree_key(p, EntryKind::Dir), tree_key(q, EntryKind::Dir))
}

/// Order of the index: directories before leaves, then by path.
pub open spec fn entry_lt(a: EntryView, b: EntryView) -> bool {
    rank(a.kind) < rank(b.kind) || (rank(a.kind) == rank(b.kind) && path_lt(a.path, b.path))
}

/// Key sequences are strictly and totally ordered.
pub proof fn lemma_keys_strict_total()
    ensures
        strict_total(|a: Seq<(int, Seq<char>)>, b: Seq<(int, Seq<char>)>| keys_lt(a, b)),
{
    let l = |x: (int, Seq<char>), y: (int, Seq<char>)| level_lt(x, y);
    assert forall|x: (int, Seq<char>)| !#[trigger] l(x, x) by {
        lemma_seg_order(x.1, x.1, x.1);
    }
    assert forall|x: (int, Seq<char>), y: (int, Seq<char>), z: (int, Seq<char>)| #[trigger] l(x, y) && #[trigger] l(y, z) implies l(x, z) by {
        lemma_seg_order(x.1, y.1, z.1);
    }
    assert forall|x: (int, Seq<char>), y: (int, Seq<char>)| x != y implies #[trigger] l(x, y) || #[trigger] l(y, x) by {
        lemma_seg_order(x.1, y.1, y.1);
    }
    assert(strict_total(l));
    lemma_lex_strict_total(l);
    let l1 = |a: Seq<(int, Seq<char>)>, b: Seq<(int, Seq<char>)>| lex_lt(a, b, l);
    let l2 = |a: Seq<(int, Seq<char>)>, b: Seq<(int, Seq<char>)>| keys_lt(a, b);
    assert(l1 == l2);
}

/// Equal tree keys mean equal entries, when the path is non-empty or the kinds agree.
pub proof fn lemma_tree_key_injective(a: EntryView, b: EntryView)
    requires
        tree_key(a.path, a.kind) == tree_key(b.path, b.kind),
        a.path.len() > 0 || a.kind == b.kind,
    ensures
        a == b,
{
    let ka = tree_key(a.path, a.kind);
    let kb = tree_key(b.path, b.kind);
    assert(a.path.len() == ka.len());
    assert forall|t: int| 0 <= t < a.path.len() implies a.path[t] == b.path[t] by {
        assert(ka[t] == kb[t]);
    }
    assert(a.path =~= b.path);
    if a.path.len() > 0 {
        let t = a.path.len() - 1;
        assert(ka[t] == kb[t]);
        assert(rank(a.kind) == rank(b.kind));
    }
}

/// The index order is a strict total order on entries.
pub proof fn lemma_entry_strict_total()
    ensures
        strict_total(|a: EntryView, b: EntryView| entry_lt(a, b)),
{
    lemma_keys_strict_total();
    let k = |a: Seq<(int, Seq<char>)>, b: Seq<(int, Seq<char>)>| keys_lt(a, b);
    let l = |a: EntryView, b: EntryView| entry_lt(a, b);
    assert forall|x: EntryView| !#[trigger] l(x, x) by {
        let kx = tree_key(x.path, EntryKind::Dir);
        assert(!k(kx, kx));
    }
    assert forall|x: EntryView, y: EntryView, z: EntryView| #[trigger] l(x, y) && #[trigger] l(y, z) implies l(x, z) by {
        let kx = tree_key(x.path, EntryKind::Dir);
        let ky = tree_key(y.path, EntryKind::Dir);
        let kz = tree_key(z.path, EntryKind::Dir);
        if k(kx, ky) && k(ky, kz) {
            assert(k(kx, kz));
        }
    }
    assert forall|x: EntryView, y: EntryView| x != y implies #[trigger] l(x, y) || #[trigger] l(y, x) by {
        if rank(x.kind) == rank(y.kind) {
            assert(x.kind == y.kind);
            let kx = tree_key(x.path, EntryKind::Dir);
            let ky = tree_key(y.path, EntryKind::Dir);
            if kx == ky {
                lemma_tree_key_injective(
                    EntryView { path: x.path, kind: EntryKind::Dir },
                    EntryView { path: y.path, kind: EntryKind::Dir },
                );
            } else {
                assert(k(kx, ky) || k(ky, kx));
            }
        }
    }
}

/// Compares two entries in depth-first tree order: negative, zero or positive.
pub fn cmp_tree(p: &Vec<String>, kp: EntryKind, q: &Vec<String>, kq: EntryKind) -> (r: i8)
    ensures
        ({
            let a = EntryView { path: segs_view(p@), kind: kp };
            let b = EntryView { path: segs_view(q@), kind: kq };
            &&& r < 0 <==> tree_lt(a, b)
            &&& r == 0 <==> tree_key(a.path, a.kind) == tree_key(b.path, b.kind)
            &&& r > 0 <==> tree_lt(b, a)
        }),
{
    let ghost ka = tree_key(segs_view(p@), kp);
    let ghost kb = tree_key(segs_view(q@), kq);
    proof {
        lemma_keys_strict_total();
    }
    let lp = p.len();
    let lq = q.len();
    let mut t: usize = 0;
    assert(ka.subrange(0, lp as int) =~= ka);
    assert(kb.subrange(0, lq as int) =~= kb);
    while t < lp && t < lq
        invariant
            lp == p@.len(),
            lq == q@.len(),
            ka == tree_key(segs_view(p@), kp),
            kb == tree_key(segs_view(q@), kq),
            strict_total(|a: Seq<(int, Seq<char>)>, b: Seq<(int, Seq<char>)>| keys_lt(a, b)),
            t <= lp,
            t <= lq,
            ka.subrange(0, t as int) == kb.subrange(0, t as int),
            keys_lt(ka, kb) == keys_lt(ka.subrange(t as int, lp as int), kb.subrange(t as int, lq as int)),
            keys_lt(kb, ka) == keys_lt(kb.subrange(t as int, lq as int), ka.subrange(t as int, lp as int)),
        decreases lp - t,
    {
        let rp: i8 = if t + 1 == lp && kp == EntryKind::Entry { 1 } else { 0 };
        let rq: i8 = if t + 1 == lq && kq == EntryKind::Entry { 1 } else { 0 };
        let c = cmp_segment(p[t].as_str(), q[t].as_str());
        let ghost sa = ka.subrange(t as int, lp as int);
        let ghost sb = kb.subrange(t as int, lq as int);
        assert(sa.drop_first() =~= ka.subrange(t + 1, lp as int));
        assert(sb.drop_first() =~= kb.subrange(t + 1, lq as int));
        assert(sa[0] == ka[t as int]);
        assert(sb[0] == kb[t as int]);
        assert(ka[t as int] == (rp as int, p@[t as int]@));
        assert(kb[t as int] == (rq as int, q@[t as int]@));
        if rp < rq || (rp == rq && c < 0) {
            assert(ka[t as int] != kb[t as int]);
            assert(ka != kb);
            return -1;
        } else if rq < rp || (rp == rq && c > 0) {
            assert(ka[t as int] != kb[t as int]);
            assert(ka != kb);
            return 1;
        }
        assert(ka.subrange(0, t + 1) =~= ka.subrange(0, t as int).push(ka[t as int]));
        assert(kb.subrange(0, t + 1) =~= kb.subrange(0, t as int).push(kb[t as int]));
        t = t + 1;
    }
    if lp == lq {
        assert(ka =~= ka.subrange(0, t as int));
        assert(kb =~= kb.subrange(0, t as int));
        0
    } else if t == lp {
        assert(ka.len() != kb.len());
        -1
    } else {
        assert(ka.len() != kb.len());
        1
    }
}

/// Compares two entries in index order: negative, zero or positive.
pub fn cmp_entries(a: &StoreEntry, b: &StoreEntry) -> (r: i8)
    ensures
        r < 0 <==> entry_lt(a@, b@),
        r == 0 <==> a@ == b@,
        r > 0 <==> entry_lt(b@, a@),
{
    proof {
        lemma_entry_strict_total();
    }
    if a.kind == EntryKind::Dir && b.kind == EntryKind::Entry {
        -1
    } else if a.kind == EntryKind::Entry && b.kind == EntryKind::Dir {
        1
    } else {
        let r = cmp_tree(&a.path, EntryKind::Dir, &b.path, EntryKind::Dir);
        proof {
            if r == 0 {
                lemma_tree_key_injective(
                    EntryView { path: a@.path, kind: EntryKind::Dir },
                    EntryView { path: b@.path, kind: EntryKind::Dir },
                );
            }
        }
        r
    }
}

impl StoreEntry {
    /// The last segment of the path; empty for the root.
    pub fn display_name(&self) -> (name: String)
        ensures
            name@ == (if self@.path.len() == 0 { Seq::<char>::empty() } else { self@.path.last() }),
    {
        if self.path.len() == 0 {
            String::new()
        } else {
            self.path[self.path.len() - 1].clone()
        }
    }

    /// The key of a leaf entry; none for a directory.
    pub fn relative_entry_path(&self) -> (key: Option<String>)
        ensures
            self.kind == EntryKind::Dir ==> key is None,
            self.kind == EntryKind::Entry ==> key is Some && key->0@ == join_key(self@.path),
    {
        match self.kind {
            EntryKind::Dir => None,
            EntryKind::Entry => Some(self.store_key()),
        }
    }

    /// Whether this entry is a directory.
    pub fn is_dir(&self) -> (r: bool)
        ensures
            r == (self.kind == EntryKind::Dir),
    {
        self.kind == EntryKind::Dir
    }

    /// The store key of this entry: its segments joined by `/`.
    pub fn store_key(&self) -> (key: String)
        ensures
            key@ == join_key(self@.path),
    {
        path_to_store_key(&self.path)
    }
}

/// The facts of a strict total order, for three given entries in index order.
pub proof fn lemma_entry_order(a: EntryView, b: EntryView, c: EntryView)
    ensures
        !entry_lt(a, a),
        entry_lt(a, b) && entry_lt(b, c) ==> entry_lt(a, c),
        a != b ==> entry_lt(a, b) || entry_lt(b, a),
{
    lemma_entry_strict_total();
    let l = |x: EntryView, y: EntryView| entry_lt(x, y);
    assert(!l(a, a));
    if l(a, b) && l(b, c) {
        assert(l(a, c));
    }
    if a != b {
        assert(l(a, b) || l(b, a));
    }
}

/// Entries strictly ascending in index order (so no entry occurs twice).
pub open spec fn index_sorted(s: Seq<EntryView>) -> bool {
    forall|i: int, j: int| 0 <= i < j < s.len() ==> entry_lt(#[trigger] s[i], #[trigger] s[j])
}

/// One node met by a walk of the store: its path below the root, and what the walk saw.
#[derive(Clone, Debug)]
pub struct ScanRecord {
    pub path: Vec<String>,
    pub is_dir: bool,
    pub is_file: bool,
}

/// The suffix of a content file on disk.
pub open spec fn content_suffix() -> Seq<char> {
    seq!['.', 'g', 'p', 'g']
}

/// The name of the version-control metadata directory, which the index leaves out with
/// everything below it.
pub open spec fn vcs_dir_name() -> Seq<char> {
    seq!['.', 'g', 'i', 't']
}

/// The leaf name of a content file: the name without its suffix, when something is left.
pub open spec fn leaf_stem(name: Seq<char>) -> Option<Seq<char>> {
    if name.len() > 4 && name.subrange(name.len() - 4, name.len() as int) == content_suffix() {
        Some(name.subrange(0, name.len() - 4))
    } else {
        None
    }
}

/// The entry that a scanned node contributes to the index, if any.
pub open spec fn classify(path: Seq<Seq<char>>, is_dir: bool, is_file: bool) -> Option<EntryView> {
    if path.len() == 0 || path.contains(vcs_dir_name()) {
        None
    } else if is_dir {
        Some(EntryView { path, kind: EntryKind::Dir })
    } else if is_file && leaf_stem(path.last()) is Some {
        Some(
            EntryView {
                path: path.drop_last().push(leaf_stem(path.last())->0),
                kind: EntryKind::Entry,
            },
        )
    } else {
        None
    }
}

/// The entry a record contributes, if any.
pub open spec fn classify_record(r: ScanRecord) -> Option<EntryView> {
    classify(segs_view(r.path@), r.is_dir, r.is_file)
}

/// Whether some record of a scan contributes `e`.
pub open spec fn scanned(records: Seq<ScanRecord>, e: EntryView) -> bool {
    exists|i: int| 0 <= i < records.len() && classify_record(#[trigger] records[i]) == Some(e)
}

/// `ix` holds the root and exactly the entries that the nodes of `scan` contribute.
pub open spec fn index_of_scan(ix: Seq<EntryView>, scan: Seq<ScanRecord>) -> bool {
    forall|x: EntryView| ix.contains(x) <==> (x == root_view() || scanned(scan, x))
}

/// A copy of a path.
pub fn copy_path(p: &Vec<String>) -> (r: Vec<String>)
    ensures
        segs_view(r@) == segs_view(p@),
{
    let mut r: Vec<String> = Vec::new();
    let mut i: usize = 0;
    while i < p.len()
        invariant
            i <= p.len(),
            r@.len() == i,
            forall|k: int| 0 <= k < i ==> (#[trigger] r@[k])@ == p@[k]@,
        decreases p.len() - i,
    {
        let seg = p[i].clone();
        r.push(seg);
        i = i + 1;
    }
    assert(segs_view(r@) =~= segs_view(p@));
    r
}

/// The name of a leaf for a content-file name, or none.
fn leaf_name(name: &str) -> (r: Option<String>)
    ensures
        r is Some <==> leaf_stem(name@) is Some,
        r is Some ==> r->0@ == leaf_stem(name@)->0,
{
    let n = name.unicode_len();
    if n <= 4 {
        return None;
    }
    let tail = name.substring_char(n - 4, n);
    proof {
        reveal_strlit(".gpg");
        assert(".gpg"@ =~= content_suffix());
    }
    if cmp_segment(tail, ".gpg") == 0 {
        Some(name.substring_char(0, n - 4).to_owned())
    } else {
        None
    }
}

/// The entry that a scanned node contributes to the index, if any.
pub fn classify_scan(rec: &ScanRecord) -> (r: Option<StoreEntry>)
    ensures
        r is Some <==> classify_record(*rec) is Some,
        r is Some ==> r->0@ == classify_record(*rec)->0,
{
    let n = rec.path.len();
    if n == 0 {
        return None;
    }
    let name = rec.path[n - 1].as_str();
    proof {
        reveal_strlit(".git");
        assert(".git"@ =~= vcs_dir_name());
        assert(segs_view(rec.path@).last() == name@);
    }
    let mut k: usize = 0;
    while k < n
        invariant
            n == rec.path@.len(),
            k <= n,
            ".git"@ == vcs_dir_name(),
            forall|j: int| 0 <= j < k ==> (#[trigger] segs_view(rec.path@)[j]) != vcs_dir_name(),
        decreases n - k,
    {
        if cmp_segment(rec.path[k].as_str(), ".git") == 0 {
            assert(segs_view(rec.path@)[k as int] == vcs_dir_name());
            return None;
        }
        k = k + 1;
    }
    assert(!segs_view(rec.path@).contains(vcs_dir_name()));
    if rec.is_dir {
        return Some(StoreEntry { path: copy_path(&rec.path), kind: EntryKind::Dir });
    }
    if !rec.is_file {
        return None;
    }
    match leaf_name(name) {
        None => None,
        Some(stem) => {
            let mut path = copy_path(&rec.path);
            let ghost before = path@;
            path.pop();
            path.push(stem);
            assert(segs_view(path@) =~= segs_view(rec.path@).drop_last().push(stem@));
            Some(StoreEntry { path, kind: EntryKind::Entry })
        },
    }
}

/// Inserts `e` at its place in an index sorted in index order; an equal entry already
/// present is kept instead.
fn insert_sorted(v: &mut Vec<StoreEntry>, e: StoreEntry)
    requires
        index_sorted(entries_view(old(v)@)),
    ensures
        index_sorted(entries_view(final(v)@)),
        forall|x: EntryView|
            entries_view(final(v)@).contains(x) <==> (entries_view(old(v)@).contains(x) || x == e@),
{
    let ghost s = entries_view(v@);
    let mut pos: usize = 0;
    let mut c: i8 = -1;
    while pos < v.len() && c < 0
        invariant
            s == entries_view(v@),
            pos <= v.len(),
            forall|i: int| 0 <= i < pos ==> entry_lt(#[trigger] s[i], e@),
            c >= 0 ==> pos < v.len(),
            c == 0 ==> s[pos as int] == e@,
            c > 0 ==> entry_lt(e@, s[pos as int]),
        decreases v.len() - pos, (if c < 0 { 1int } else { 0int }),
    {
        c = cmp_entries(&v[pos], &e);
        if c < 0 {
            pos = pos + 1;
        }
    }
    if pos < v.len() && c == 0 {
        assert forall|x: EntryView| s.contains(x) <==> (s.contains(x) || x == e@) by {
            if x == e@ {
                assert(s[pos as int] == x);
            }
        }
        return;
    }
    let ghost ev = e@;
    v.insert(pos, e);
    let ghost t = entries_view(v@);
    assert(t =~= s.insert(pos as int, ev));
    proof {
        s.insert_ensures(pos as int, ev);
        assert forall|i: int, j: int| 0 <= i < j < t.len() implies entry_lt(#[trigger] t[i], #[trigger] t[j]) by {
            if j < pos {
                assert(t[i] == s[i] && t[j] == s[j]);
            } else if j == pos {
                assert(t[i] == s[i] && t[j] == ev);
            } else if i == pos {
                assert(t[i] == ev && t[j] == s[j - 1]);
                lemma_entry_order(ev, s[pos as int], s[j - 1]);
                if j - 1 > pos {
                    assert(entry_lt(s[pos as int], s[j - 1]));
                }
            } else if i < pos {
                assert(t[i] == s[i] && t[j] == s[j - 1]);
                assert(entry_lt(s[i], ev));
                lemma_entry_order(s[i], ev, s[j - 1]);
                if j - 1 > pos {
                    assert(entry_lt(s[pos as int], s[j - 1]));
                    lemma_entry_order(ev, s[pos as int], s[j - 1]);
                }
            } else {
                assert(t[i] == s[i - 1] && t[j] == s[j - 1]);
                assert(entry_lt(s[i - 1], s[j - 1]));
            }
        }
        assert forall|x: EntryView| t.contains(x) <==> (s.contains(x) || x == ev) by {
            if t.contains(x) {
                let k = choose|k: int| 0 <= k < t.len() && t[k] == x;
                if k < pos {
                    assert(s[k] == x);
                } else if k > pos {
                    assert(s[k - 1] == x);
                }
            }
            if s.contains(x) {
                let k = choose|k: int| 0 <= k < s.len() && s[k] == x;
                if k < pos {
                    assert(t[k] == x);
                } else {
                    assert(t[k + 1] == x);
                }
            }
            if x == ev {
                assert(t[pos as int] == x);
            }
        }
    }
}

/// The index of a store from a walk of it: the root, then every directory and every content
/// file (its suffix stripped) met, leaving out the version-control directory; sorted in index
/// order, each entry once.
pub fn index_from_scan(records: &Vec<ScanRecord>) -> (index: Vec<StoreEntry>)
    ensures
        index_sorted(entries_view(index@)),
        index@.len() > 0 && index@[0]@ == root_view(),
        entries_view(index@)[0] == root_view(),
        index_of_scan(entries_view(index@), records@),
{
    let mut index: Vec<StoreEntry> = Vec::new();
    let root_path: Vec<String> = Vec::new();
    assert(segs_view(root_path@) =~= Seq::<Seq<char>>::empty());
    index.push(StoreEntry { path: root_path, kind: EntryKind::Dir });
    assert(index@[0]@ == root_view());
    assert forall|x: EntryView| entries_view(index@).contains(x) <==> x == root_view() by {
        if x == root_view() {
            assert(entries_view(index@)[0] == x);
        }
    }
    let mut i: usize = 0;
    while i < records.len()
        invariant
            i <= records.len(),
            index_sorted(entries_view(index@)),
            forall|x: EntryView|
                entries_view(index@).contains(x) <==> (x == root_view() || scanned(
                    records@.subrange(0, i as int),
                    x,
                )),
        decreases records.len() - i,
    {
        let ghost pre = records@.subrange(0, i as int);
        let ghost cur = records@.subrange(0, i + 1);
        match classify_scan(&records[i]) {
            Some(e) => {
                let ghost ev = e@;
                insert_sorted(&mut index, e);
                assert forall|x: EntryView| scanned(cur, x) <==> (scanned(pre, x) || x == ev) by {
                    if scanned(pre, x) {
                        let k = choose|k: int| 0 <= k < pre.len() && classify_record(#[trigger] pre[k]) == Some(x);
                        assert(cur[k] == pre[k]);
                    }
                    if x == ev {
                        assert(cur[i as int] == records@[i as int]);
                    }
                    if scanned(cur, x) {
                        let k = choose|k: int| 0 <= k < cur.len() && classify_record(#[trigger] cur[k]) == Some(x);
                        if k < i {
                            assert(pre[k] == cur[k]);
                        }
                    }
                }
            },
            None => {
                assert forall|x: EntryView| scanned(cur, x) <==> scanned(pre, x) by {
                    if scanned(pre, x) {
                        let k = choose|k: int| 0 <= k < pre.len() && classify_record(#[trigger] pre[k]) == Some(x);
                        assert(cur[k] == pre[k]);
                    }
                    if scanned(cur, x) {
                        let k = choose|k: int| 0 <= k < cur.len() && classify_record(#[trigger] cur[k]) == Some(x);
                        if k < i {
                            assert(pre[k] == cur[k]);
                        }
                    }
                }
            },
        }
        i = i + 1;
    }
    assert(records@.subrange(0, records.len() as int) =~= records@);
    proof {
        let s = entries_view(index@);
        assert(s.contains(root_view()));
        let k = choose|k: int| 0 <= k < s.len() && s[k] == root_view();
        if k > 0 {
            let z = s[0];
            assert(entry_lt(z, root_view()));
            lemma_root_least(z);
        }
    }
    index
}

/// No entry sorts before the root.
proof fn lemma_root_least(z: EntryView)
    ensures
        !entry_lt(z, root_view()),
{
    assert(tree_key(root_view().path, EntryKind::Dir).len() == 0);
}

} // verus!
