//! Store keys: path segments joined by `/`.
use vstd::prelude::*;
use vstd::string::*;

verus! {

/// The segments of a path, as character sequences.
pub open spec fn segs_view(path: Seq<String>) -> Seq<Seq<char>> {
    path.map_values(|s: String| s@)
}

/// The key of a path: its segments joined by `/`; the empty path has the empty key.
pub open spec fn join_key(segs: Seq<Seq<char>>) -> Seq<char>
    decreases segs.len(),
{
    if segs.len() == 0 {
        Seq::empty()
    } else if segs.len() == 1 {
        segs[0]
    } else {
        join_key(segs.drop_last()) + seq!['/'] + segs.last()
    }
}

/// Position of the last `/` in `s`, or -1 when there is none.
pub open spec fn last_slash(s: Seq<char>) -> int
    decreases s.len(),
{
    if s.len() == 0 {
        -1
    } else if s.last() == '/' {
        s.len() - 1
    } else {
        last_slash(s.drop_last())
    }
}

/// The pieces of `s` between separators (one piece when there is no `/`).
pub open spec fn split_pieces(s: Seq<char>) -> Seq<Seq<char>>
    decreases s.len(),
{
    let k = last_slash(s);
    if k < 0 || k >= s.len() {
        seq![s]
    } else {
        split_pieces(s.subrange(0, k)).push(s.subrange(k + 1, s.len() as int))
    }
}

/// The path named by a key: the empty key names the root (no segments).
pub open spec fn split_key(s: Seq<char>) -> Seq<Seq<char>> {
    if s.len() == 0 {
        Seq::empty()
    } else {
        split_pieces(s)
    }
}

/// A segment that holds no separator.
pub open spec fn no_slash(s: Seq<char>) -> bool {
    forall|i: int| 0 <= i < s.len() ==> s[i] != '/'
}

proof fn lemma_last_slash_of_tail(a: Seq<char>, b: Seq<char>)
    requires
        no_slash(b),
    ensures
        last_slash(a + b) == last_slash(a),
    decreases b.len(),
{
    if b.len() > 0 {
        assert((a + b).drop_last() =~= a + b.drop_last());
        lemma_last_slash_of_tail(a, b.drop_last());
    } else {
        assert(a + b =~= a);
    }
}

proof fn lemma_split_join(segs: Seq<Seq<char>>)
    requires
        segs.len() > 0,
        forall|i: int| 0 <= i < segs.len() ==> no_slash(#[trigger] segs[i]),
    ensures
        split_pieces(join_key(segs)) == segs,
    decreases segs.len(),
{
    if segs.len() == 1 {
        lemma_last_slash_of_tail(Seq::empty(), segs[0]);
        assert(Seq::<char>::empty() + segs[0] =~= segs[0]);
        assert(seq![segs[0]] =~= segs);
    } else {
        let head = join_key(segs.drop_last());
        let s = head + seq!['/'] + segs.last();
        lemma_last_slash_of_tail(head + seq!['/'], segs.last());
        assert((head + seq!['/']).drop_last() =~= head);
        assert(last_slash(s) == head.len());
        assert(s.subrange(0, head.len() as int) =~= head);
        assert(s.subrange(head.len() as int + 1, s.len() as int) =~= segs.last());
        lemma_split_join(segs.drop_last());
        assert(segs.drop_last().push(segs.last()) =~= segs);
    }
}

/// Decoding the key of a path gives the path back, for segments without separators.
/// The one path without its own key is the single empty segment, which encodes like the root.
pub proof fn lemma_key_round_trip(segs: Seq<Seq<char>>)
    requires
        forall|i: int| 0 <= i < segs.len() ==> no_slash(#[trigger] segs[i]),
        !(segs.len() == 1 && segs[0].len() == 0),
    ensures
        split_key(join_key(segs)) == segs,
{
    if segs.len() == 0 {
        assert(split_key(join_key(segs)) =~= segs);
    } else {
        lemma_split_join(segs);
        if segs.len() > 1 {
            assert(join_key(segs).len() > 0);
        }
    }
}

/// A proper, non-empty prefix of a path has a strictly shorter key.
pub proof fn lemma_prefix_key_shorter(segs: Seq<Seq<char>>, m: int)
    requires
        1 <= m < segs.len(),
    ensures
        join_key(segs.subrange(0, m)).len() < join_key(segs).len(),
    decreases segs.len() - m,
{
    let d = segs.drop_last();
    if m == segs.len() - 1 {
        assert(segs.subrange(0, m) =~= d);
    } else {
        lemma_prefix_key_shorter(d, m);
        assert(d.subrange(0, m) =~= segs.subrange(0, m));
    }
}

/// The key of a path: its segments joined by `/`.
pub fn path_to_store_key(path: &Vec<String>) -> (key: String)
    ensures
        key@ == join_key(segs_view(path@)),
{
    let mut key = String::new();
    let mut i: usize = 0;
    while i < path.len()
        invariant
            i <= path.len(),
            key@ == join_key(segs_view(path@.subrange(0, i as int))),
        decreases path.len() - i,
    {
        let ghost before = path@.subrange(0, i as int);
        let ghost after = path@.subrange(0, i + 1);
        assert(segs_view(after).drop_last() =~= segs_view(before));
        if i > 0 {
            key.append("/");
        }
        key.append(path[i].as_str());
        i = i + 1;
        proof {
            reveal_strlit("/");
            assert("/"@ =~= seq!['/']);
            assert(segs_view(after).last() == path@[i - 1]@);
            if i == 1 {
                assert(key@ =~= segs_view(after)[0]);
            } else {
                assert(key@ =~= join_key(segs_view(before)) + seq!['/'] + segs_view(after).last());
            }
        }
    }
    assert(path@.subrange(0, path.len() as int) =~= path@);
    key
}

/// The path named by a key: the pieces between `/`, none for the empty key.
pub fn store_key_to_path(key: &str) -> (path: Vec<String>)
    ensures
        segs_view(path@) == split_key(key@),
{
    let n = key.unicode_len();
    let mut path: Vec<String> = Vec::new();
    if n == 0 {
        assert(segs_view(path@) =~= split_key(key@));
        return path;
    }
    let mut start: usize = 0;
    let mut i: usize = 0;
    while i < n
        invariant
            n == key@.len(),
            n > 0,
            start <= i <= n,
            last_slash(key@.subrange(0, i as int)) == start - 1,
            i > 0 ==> split_pieces(key@.subrange(0, i as int)) == segs_view(path@).push(
                key@.subrange(start as int, i as int),
            ),
            i == 0 ==> path@.len() == 0 && start == 0,
            start == 0 ==> path@.len() == 0,
        decreases n - i,
    {
        let c = key.get_char(i);
        let ghost pre = key@.subrange(0, i as int);
        let ghost cur = key@.subrange(0, i + 1);
        assert(cur.drop_last() =~= pre);
        if c == '/' {
            let piece = key.substring_char(start, i).to_owned();
            proof {
                assert(cur.last() == c);
                assert(last_slash(cur) == i);
                assert(cur.subrange(0, i as int) =~= pre);
                assert(cur.subrange(i + 1, i + 1) =~= key@.subrange(i + 1, i + 1));
                if i == 0 {
                    assert(last_slash(pre) == -1);
                    assert(split_pieces(pre) =~= seq![pre]);
                    assert(pre =~= key@.subrange(start as int, i as int));
                }
            }
            let ghost old_path = path@;
            path.push(piece);
            start = i + 1;
            assert(segs_view(path@) =~= segs_view(old_path).push(piece@));
            assert(split_pieces(cur) == split_pieces(pre).push(key@.subrange(start as int, i + 1)));
        } else {
            proof {
                assert(cur.last() == c);
                assert(last_slash(cur) == last_slash(pre));
                if start == 0 {
                    assert(split_pieces(cur) =~= seq![cur]);
                    assert(cur =~= key@.subrange(0, i + 1));
                } else {
                    let k = start - 1;
                    assert(cur.subrange(0, k) =~= pre.subrange(0, k));
                    assert(cur.subrange(k + 1, i + 1) =~= key@.subrange(start as int, i + 1));
                    assert(pre.subrange(k + 1, i as int) =~= key@.subrange(start as int, i as int));
                    assert(split_pieces(pre) == split_pieces(pre.subrange(0, k)).push(pre.subrange(k + 1, i as int)));
                    assert(split_pieces(pre).drop_last() =~= split_pieces(pre.subrange(0, k)));
                    assert(segs_view(path@).push(key@.subrange(start as int, i as int)).drop_last() =~= segs_view(path@));
                    assert(split_pieces(cur) == split_pieces(cur.subrange(0, k)).push(cur.subrange(k + 1, i + 1)));
                }
            }
        }
        i = i + 1;
    }
    let piece = key.substring_char(start, n).to_owned();
    path.push(piece);
    assert(key@.subrange(0, n as int) =~= key@);
    assert(segs_view(path@) =~= segs_view(path@.drop_last()).push(piece@));
    path
}

} // verus!
