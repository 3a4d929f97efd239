//! Orders on sequences and what insertion into an ordered sequence keeps.
use vstd::prelude::*;

verus! {

broadcast use vstd::seq_lib::group_seq_properties;

/// Mapping a function over a sequence commutes with pushing.
pub proof fn lemma_map_push<A, B>(s: Seq<A>, x: A, f: spec_fn(A) -> B)
    ensures
        s.push(x).map_values(f) == s.map_values(f).push(f(x)),
{
    assert(s.push(x).map_values(f) =~= s.map_values(f).push(f(x)));
}

/// `a` comes strictly before `b` in the lexicographic extension of `lt`:
/// at the first position where they differ `lt` decides, and a proper
/// prefix comes before every longer sequence.
pub open spec fn lex_lt<A>(a: Seq<A>, b: Seq<A>, lt: spec_fn(A, A) -> bool) -> bool
    decreases a.len(),
{
    if a.len() == 0 {
        b.len() > 0
    } else if b.len() == 0 {
        false
    } else if a[0] == b[0] {
        lex_lt(a.drop_first(), b.drop_first(), lt)
    } else {
        lt(a[0], b[0])
    }
}

/// `lt` is a strict total order: irreflexive, transitive, and any two
/// distinct values are related one way or the other.
pub open spec fn strict_total<A>(lt: spec_fn(A, A) -> bool) -> bool {
    &&& forall|x: A| !#[trigger] lt(x, x)
    &&& forall|x: A, y: A, z: A| #[trigger] lt(x, y) && #[trigger] lt(y, z) ==> lt(x, z)
    &&& forall|x: A, y: A| x != y ==> #[trigger] lt(x, y) || #[trigger] lt(y, x)
}

proof fn lemma_lex_irreflexive<A>(a: Seq<A>, lt: spec_fn(A, A) -> bool)
    requires
        strict_total(lt),
    ensures
        !lex_lt(a, a, lt),
    decreases a.len(),
{
    if a.len() > 0 {
        lemma_lex_irreflexive(a.drop_first(), lt);
    }
}

proof fn lemma_lex_transitive<A>(a: Seq<A>, b: Seq<A>, c: Seq<A>, lt: spec_fn(A, A) -> bool)
    requires
        strict_total(lt),
        lex_lt(a, b, lt),
        lex_lt(b, c, lt),
    ensures
        lex_lt(a, c, lt),
    decreases a.len(),
{
    if a.len() > 0 && b.len() > 0 && c.len() > 0 {
        if a[0] == b[0] && b[0] == c[0] {
            lemma_lex_transitive(a.drop_first(), b.drop_first(), c.drop_first(), lt);
        } else if a[0] == b[0] {
        } else if b[0] == c[0] {
        } else {
            assert(lt(a[0], b[0]) && lt(b[0], c[0]));
            if a[0] == c[0] {
                assert(lt(a[0], a[0]));
            }
        }
    }
}

proof fn lemma_lex_total<A>(a: Seq<A>, b: Seq<A>, lt: spec_fn(A, A) -> bool)
    requires
        strict_total(lt),
        a != b,
    ensures
        lex_lt(a, b, lt) || lex_lt(b, a, lt),
    decreases a.len(),
{
    if a.len() > 0 && b.len() > 0 {
        if a[0] == b[0] {
            if a.drop_first() == b.drop_first() {
                assert(a =~= seq![a[0]] + a.drop_first());
                assert(b =~= seq![b[0]] + b.drop_first());
            }
            lemma_lex_total(a.drop_first(), b.drop_first(), lt);
        } else {
            assert(lt(a[0], b[0]) || lt(b[0], a[0]));
        }
    } else if a.len() == 0 && b.len() == 0 {
        assert(a =~= b);
    }
}

/// The lexicographic extension of a strict total order is a strict total order.
pub proof fn lemma_lex_strict_total<A>(lt: spec_fn(A, A) -> bool)
    requires
        strict_total(lt),
    ensures
        strict_total(|a: Seq<A>, b: Seq<A>| lex_lt(a, b, lt)),
{
    let l = |a: Seq<A>, b: Seq<A>| lex_lt(a, b, lt);
    assert forall|x: Seq<A>| !#[trigger] l(x, x) by {
        lemma_lex_irreflexive(x, lt);
    }
    assert forall|x: Seq<A>, y: Seq<A>, z: Seq<A>| #[trigger] l(x, y) && #[trigger] l(y, z) implies l(
        x,
        z,
    ) by {
        lemma_lex_transitive(x, y, z, lt);
    }
    assert forall|x: Seq<A>, y: Seq<A>| x != y implies #[trigger] l(x, y) || #[trigger] l(y, x) by {
        lemma_lex_total(x, y, lt);
    }
}


/// Mapping a function over a sequence commutes with inserting.
pub proof fn lemma_map_insert<A, B>(s: Seq<A>, i: int, x: A, f: spec_fn(A) -> B)
    requires
        0 <= i <= s.len(),
    ensures
        s.insert(i, x).map_values(f) == s.map_values(f).insert(i, f(x)),
{
    assert(s.insert(i, x).map_values(f) =~= s.map_values(f).insert(i, f(x)));
}

/// The keys in `s` never decrease under `lt`.
pub open spec fn sorted_by<K>(s: Seq<K>, lt: spec_fn(K, K) -> bool) -> bool {
    forall|i: int, j: int| 0 <= i < j < s.len() ==> !lt(#[trigger] s[j], #[trigger] s[i])
}

/// Inserting `k` after every key that does not exceed it and before every key
/// that does keeps a sorted sequence sorted.
pub proof fn lemma_insert_sorted<K>(s: Seq<K>, j: int, k: K, lt: spec_fn(K, K) -> bool)
    requires
        strict_total(lt),
        sorted_by(s, lt),
        0 <= j <= s.len(),
        forall|m: int| j <= m < s.len() ==> lt(k, #[trigger] s[m]),
        j == 0 || !lt(k, s[j - 1]),
    ensures
        sorted_by(s.insert(j, k), lt),
{
    let t = s.insert(j, k);
    assert forall|a: int, b: int| 0 <= a < b < t.len() implies !lt(#[trigger] t[b], #[trigger] t[a]) by {
        if a < j && b == j {
            // t[a] = s[a] and t[b] = k, with s[a] not above s[j - 1] and k not below it
            if a < j - 1 {
                assert(!lt(s[j - 1], s[a]));
            }
            if lt(k, s[a]) {
                if s[a] == s[j - 1] {
                } else {
                    assert(lt(s[a], s[j - 1]));
                    assert(lt(k, s[j - 1]));
                }
            }
        } else if a == j {
            // t[a] = k and t[b] = s[b - 1] with lt(k, s[b - 1])
            assert(lt(k, s[b - 1]));
            if lt(s[b - 1], k) {
                assert(lt(k, k));
            }
        } else if b < j {
            assert(t[a] == s[a] && t[b] == s[b]);
        } else {
            assert(t[a] == s[a - 1] || a < j);
        }
    }
}

/// A sequence whose neighbours are in order is sorted.
pub proof fn lemma_sorted_from_adjacent<K>(s: Seq<K>, lt: spec_fn(K, K) -> bool)
    requires
        strict_total(lt),
        forall|m: int| 0 <= m < s.len() - 1 ==> !lt(#[trigger] s[m + 1], s[m]),
    ensures
        sorted_by(s, lt),
{
    assert forall|i: int, j: int| 0 <= i < j < s.len() implies !lt(#[trigger] s[j], #[trigger] s[i]) by {
        lemma_sorted_from_adjacent_pair(s, lt, i, j);
    }
}

proof fn lemma_sorted_from_adjacent_pair<K>(s: Seq<K>, lt: spec_fn(K, K) -> bool, i: int, j: int)
    requires
        strict_total(lt),
        forall|m: int| 0 <= m < s.len() - 1 ==> !lt(#[trigger] s[m + 1], s[m]),
        0 <= i < j < s.len(),
    ensures
        !lt(s[j], s[i]),
    decreases j - i,
{
    assert(!lt(s[(j - 1) + 1], s[j - 1]));
    if i < j - 1 {
        lemma_sorted_from_adjacent_pair(s, lt, i, j - 1);
        if lt(s[j], s[i]) {
            if s[j - 1] != s[i] {
                assert(lt(s[i], s[j - 1]));
                assert(lt(s[j], s[j - 1]));
            }
        }
    }
}

/// Filtering a one-element sequence keeps the element exactly when it passes.
pub proof fn lemma_filter_single<A>(x: A, p: spec_fn(A) -> bool)
    ensures
        seq![x].filter(p) == (if p(x) {
            seq![x]
        } else {
            Seq::<A>::empty()
        }),
{
    reveal_with_fuel(Seq::filter, 2);
    assert(seq![x].drop_last() =~= Seq::<A>::empty());
    assert(seq![x].last() == x);
}

/// Filtering keeps everything when everything passes.
pub proof fn lemma_filter_all<A>(s: Seq<A>, p: spec_fn(A) -> bool)
    requires
        forall|i: int| 0 <= i < s.len() ==> p(#[trigger] s[i]),
    ensures
        s.filter(p) == s,
    decreases s.len(),
{
    reveal(Seq::filter);
    if s.len() > 0 {
        lemma_filter_all(s.drop_last(), p);
        assert(s.drop_last().push(s.last()) =~= s);
    }
}

} // verus!
