//! Lexicographic orders on sequences, and the comparison of path segments.
use vstd::prelude::*;
use vstd::string::*;

verus! {

/// `lt` is a strict total order on `A`.
pub open spec fn strict_total<A>(lt: spec_fn(A, A) -> bool) -> bool {
    &&& forall|x: A| !#[trigger] lt(x, x)
    &&& forall|x: A, y: A, z: A| #[trigger] lt(x, y) && #[trigger] lt(y, z) ==> lt(x, z)
    &&& forall|x: A, y: A| x != y ==> #[trigger] lt(x, y) || #[trigger] lt(y, x)
}

/// Lexicographic order on sequences: a proper prefix comes first.
pub open spec fn lex_lt<A>(a: Seq<A>, b: Seq<A>, lt: spec_fn(A, A) -> bool) -> bool
    decreases a.len(),
{
    if a.len() == 0 {
        b.len() > 0
    } else if b.len() == 0 {
        false
    } else if a[0] == b[0] {
        lex_lt(a.drop_first(), b.drop_first(), lt)
    } else {
        lt(a[0], b[0])
    }
}

/// Characters compare by their code point, which is also the byte order of UTF-8.
pub open spec fn char_lt(x: char, y: char) -> bool {
    (x as u32) < (y as u32)
}

/// Order of two path segments (as the bytes of their UTF-8 encoding compare).
pub open spec fn seg_lt(a: Seq<char>, b: Seq<char>) -> bool {
    lex_lt(a, b, |x: char, y: char| char_lt(x, y))
}

proof fn lemma_lex_irreflexive<A>(a: Seq<A>, lt: spec_fn(A, A) -> bool)
    requires
        strict_total(lt),
    ensures
        !lex_lt(a, a, lt),
    decreases a.len(),
{
    if a.len() > 0 {
        lemma_lex_irreflexive(a.drop_first(), lt);
    }
}

proof fn lemma_lex_transitive<A>(a: Seq<A>, b: Seq<A>, c: Seq<A>, lt: spec_fn(A, A) -> bool)
    requires
        strict_total(lt),
        lex_lt(a, b, lt),
        lex_lt(b, c, lt),
    ensures
        lex_lt(a, c, lt),
    decreases a.len(),
{
    if a.len() > 0 && b.len() > 0 && c.len() > 0 {
        if a[0] == b[0] && b[0] == c[0] {
            lemma_lex_transitive(a.drop_first(), b.drop_first(), c.drop_first(), lt);
        } else if a[0] == b[0] {
        } else if b[0] == c[0] {
        } else {
            assert(lt(a[0], c[0]));
            if a[0] == c[0] {
                assert(lt(a[0], a[0]));
            }
        }
    }
}

proof fn lemma_lex_total<A>(a: Seq<A>, b: Seq<A>, lt: spec_fn(A, A) -> bool)
    requires
        strict_total(lt),
        a != b,
    ensures
        lex_lt(a, b, lt) || lex_lt(b, a, lt),
    decreases a.len(),
{
    if a.len() > 0 && b.len() > 0 {
        if a[0] == b[0] {
            if a.drop_first() == b.drop_first() {
                assert(a =~= seq![a[0]] + a.drop_first());
                assert(b =~= seq![b[0]] + b.drop_first());
            }
            lemma_lex_total(a.drop_first(), b.drop_first(), lt);
        }
    } else if a.len() == 0 && b.len() == 0 {
        assert(a =~= b);
    }
}

/// The lexicographic extension of a strict total order is a strict total order.
pub proof fn lemma_lex_strict_total<A>(lt: spec_fn(A, A) -> bool)
    requires
        strict_total(lt),
    ensures
        strict_total(|a: Seq<A>, b: Seq<A>| lex_lt(a, b, lt)),
{
    let l = |a: Seq<A>, b: Seq<A>| lex_lt(a, b, lt);
    assert forall|x: Seq<A>| !#[trigger] l(x, x) by {
        lemma_lex_irreflexive(x, lt);
    }
    assert forall|x: Seq<A>, y: Seq<A>, z: Seq<A>| #[trigger] l(x, y) && #[trigger] l(y, z) implies l(
        x,
        z,
    ) by {
        lemma_lex_transitive(x, y, z, lt);
    }
    assert forall|x: Seq<A>, y: Seq<A>| x != y implies #[trigger] l(x, y) || #[trigger] l(y, x) by {
        lemma_lex_total(x, y, lt);
    }
}

/// Segments are strictly and totally ordered.
pub proof fn lemma_seg_strict_total()
    ensures
        strict_total(|a: Seq<char>, b: Seq<char>| seg_lt(a, b)),
{
    let c = |x: char, y: char| char_lt(x, y);
    assert forall|x: char, y: char| x != y implies #[trigger] c(x, y) || #[trigger] c(y, x) by {
        if (x as u32) == (y as u32) {
            vstd::utf8::char_u32_cast(x, x as u32);
            vstd::utf8::char_u32_cast(y, y as u32);
        }
    }
    lemma_lex_strict_total(c);
    let l1 = |a: Seq<char>, b: Seq<char>| lex_lt(a, b, c);
    let l2 = |a: Seq<char>, b: Seq<char>| seg_lt(a, b);
    assert(l1 == l2);
}

/// The facts of a strict total order, for three given segments.
pub proof fn lemma_seg_order(a: Seq<char>, b: Seq<char>, c: Seq<char>)
    ensures
        !seg_lt(a, a),
        seg_lt(a, b) && seg_lt(b, c) ==> seg_lt(a, c),
        a != b ==> seg_lt(a, b) || seg_lt(b, a),
{
    lemma_seg_strict_total();
    let s = |x: Seq<char>, y: Seq<char>| seg_lt(x, y);
    assert(!s(a, a));
    if s(a, b) && s(b, c) {
        assert(s(a, c));
    }
    if a != b {
        assert(s(a, b) || s(b, a));
    }
}

/// Compares two segments: negative, zero or positive as `a` sorts before, equal to, or after `b`.
pub fn cmp_segment(a: &str, b: &str) -> (r: i8)
    ensures
        r < 0 <==> seg_lt(a@, b@),
        r == 0 <==> a@ == b@,
        r > 0 <==> seg_lt(b@, a@),
{
    proof {
        lemma_seg_strict_total();
    }
    let la = a.unicode_len();
    let lb = b.unicode_len();
    let mut i: usize = 0;
    assert(a@.subrange(0, la as int) =~= a@);
    assert(b@.subrange(0, lb as int) =~= b@);
    while i < la && i < lb
        invariant
            la == a@.len(),
            lb == b@.len(),
            i <= la,
            i <= lb,
            a@.subrange(0, i as int) == b@.subrange(0, i as int),
            seg_lt(a@, b@) == seg_lt(a@.subrange(i as int, la as int), b@.subrange(i as int, lb as int)),
            seg_lt(b@, a@) == seg_lt(b@.subrange(i as int, lb as int), a@.subrange(i as int, la as int)),
        decreases la - i,
    {
        let x = a.get_char(i);
        let y = b.get_char(i);
        let ghost sa = a@.subrange(i as int, la as int);
        let ghost sb = b@.subrange(i as int, lb as int);
        assert(sa.drop_first() =~= a@.subrange(i + 1, la as int));
        assert(sb.drop_first() =~= b@.subrange(i + 1, lb as int));
        if (x as u32) < (y as u32) {
            assert(a@ != b@) by {
                assert(a@[i as int] != b@[i as int]);
            }
            return -1;
        } else if (y as u32) < (x as u32) {
            assert(a@ != b@) by {
                assert(a@[i as int] != b@[i as int]);
            }
            return 1;
        }
        proof {
            vstd::utf8::char_u32_cast(x, x as u32);
            vstd::utf8::char_u32_cast(y, y as u32);
        }
        assert(x == y);
        assert(a@.subrange(0, i + 1) =~= a@.subrange(0, i as int).push(x));
        assert(b@.subrange(0, i + 1) =~= b@.subrange(0, i as int).push(y));
        i = i + 1;
    }
    let ghost sa = a@.subrange(i as int, la as int);
    let ghost sb = b@.subrange(i as int, lb as int);
    if la == lb {
        assert(a@ =~= a@.subrange(0, i as int));
        assert(b@ =~= b@.subrange(0, i as int));
        0
    } else if i == la {
        assert(a@ != b@) by {
            assert(a@.len() != b@.len());
        }
        -1
    } else {
        assert(a@ != b@) by {
            assert(a@.len() != b@.len());
        }
        1
    }
}

} // verus!
