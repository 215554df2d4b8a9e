//! Integer similarity scores and the ranking they induce on stored points.
//!
//! Embedding vectors are fixed-point values: every component is an `i32`
//! that stands for a real coordinate times a fixed scale chosen by the
//! caller. For vectors scaled from unit-length embeddings the dot product
//! orders candidates exactly as cosine similarity does, so the store ranks
//! by the dot product of the stored vector and the query vector.
//!
//! A ranking is a permutation of the point indices, ordered by descending
//! score; two points with the same score keep their insertion order. The
//! ranking is defined here as a spec-level insertion sort, and the lemmas
//! at the end state the properties retrieval relies on: the ranking is a
//! permutation, it reports the score of the point it names, and it is
//! sorted.

use vstd::prelude::*;

verus! {

/// An embedding vector in fixed-point form: each component is a real
/// coordinate times a fixed scale, truncated to an `i32`.
pub type Embeddings = Vec<i32>;

/// Dot product of the common prefix of two integer vectors, as an
/// unbounded integer. The store only applies it to vectors of equal
/// length.
pub open spec fn spec_dot(a: Seq<i32>, b: Seq<i32>) -> int
    decreases a.len(),
{
    if a.len() == 0 || b.len() == 0 {
        0
    } else {
        a.last() * b.last() + spec_dot(a.drop_last(), b.drop_last())
    }
}

/// Every product of two `i32` values fits in `PRODUCT_BOUND`, so a dot
/// product of `n` components fits in `n * PRODUCT_BOUND`.
pub open spec fn product_bound() -> int {
    0x4000_0000_0000_0000
}

proof fn lemma_mul_i32_bound(x: i32, y: i32)
    ensures
        -product_bound() <= x * y <= product_bound(),
{
    assert(-product_bound() <= x * y <= product_bound()) by (nonlinear_arith)
        requires
            -0x8000_0000 <= x <= 0x7fff_ffff,
            -0x8000_0000 <= y <= 0x7fff_ffff,
    ;
}

/// Computes the dot product of two equal-length fixed-point vectors.
///
/// The accumulator is an `i128`; a product of two `i32` components needs
/// at most 63 bits, and no vector can have more than `usize::MAX`
/// components, so the sum cannot overflow.
pub fn dot(a: &Vec<i32>, b: &Vec<i32>) -> (r: i128)
    requires
        a@.len() == b@.len(),
    ensures
        r == spec_dot(a@, b@),
{
    let n = a.len();
    let mut acc: i128 = 0;
    let mut i: usize = 0;
    while i < n
        invariant
            n == a@.len() == b@.len(),
            0 <= i <= n,
            acc == spec_dot(a@.take(i as int), b@.take(i as int)),
            -(i as int) * product_bound() <= acc <= (i as int) * product_bound(),
        decreases n - i,
    {
        proof {
            lemma_mul_i32_bound(a@[i as int], b@[i as int]);
            assert(a@.take(i + 1).drop_last() =~= a@.take(i as int));
            assert(b@.take(i + 1).drop_last() =~= b@.take(i as int));
            assert(a@.take(i + 1).last() == a@[i as int]);
            assert((i as int) * product_bound() + product_bound() == (i + 1) as int
                * product_bound()) by (nonlinear_arith);
        }
        acc = acc + (a[i] as i128) * (b[i] as i128);
        i = i + 1;
    }
    proof {
        assert(a@.take(n as int) =~= a@);
        assert(b@.take(n as int) =~= b@);
    }
    acc
}

/// A scored point during ranking: its similarity score and the index it
/// holds in the collection's point sequence. The index is the tie
/// breaker, so the pair decides the rank completely.
pub type Ranked = (int, int);

/// True when `a` ranks strictly before `b`: a higher score wins, and on
/// equal scores the point inserted earlier wins.
pub open spec fn ranks_before(a: Ranked, b: Ranked) -> bool {
    a.0 > b.0 || (a.0 == b.0 && a.1 < b.1)
}

/// Inserts a scored point into a ranking, in front of the first entry it
/// ranks before.
pub open spec fn insert_ranked(s: Seq<Ranked>, x: Ranked) -> Seq<Ranked>
    decreases s.len(),
{
    if s.len() == 0 {
        seq![x]
    } else if ranks_before(x, s[0]) {
        seq![x] + s
    } else {
        seq![s[0]] + insert_ranked(s.drop_first(), x)
    }
}

/// The ranking of the first `n` of the given scores: each score is paired
/// with its index and inserted in index order.
pub open spec fn ranking_prefix(scores: Seq<int>, n: nat) -> Seq<Ranked>
    decreases n,
{
    if n == 0 {
        Seq::empty()
    } else {
        insert_ranked(ranking_prefix(scores, (n - 1) as nat), (scores[n - 1], n - 1))
    }
}

/// The ranking of a collection whose `i`-th point has score `scores[i]`:
/// the scored indices, ordered by descending score with insertion order
/// breaking ties.
pub open spec fn spec_ranking(scores: Seq<int>) -> Seq<Ranked> {
    ranking_prefix(scores, scores.len())
}

/// A sequence of scored points in strictly descending rank order.
pub open spec fn rank_ordered(s: Seq<Ranked>) -> bool {
    forall|i: int, j: int| 0 <= i < j < s.len() ==> ranks_before(s[i], s[j])
}

pub proof fn lemma_insert_ranked_len(s: Seq<Ranked>, x: Ranked)
    ensures
        insert_ranked(s, x).len() == s.len() + 1,
    decreases s.len(),
{
    if s.len() > 0 && !ranks_before(x, s[0]) {
        lemma_insert_ranked_len(s.drop_first(), x);
    }
}

/// Inserting splits the old ranking around the new entry: the result is a
/// prefix of the old ranking, then the new entry, then the rest.
pub proof fn lemma_insert_ranked_splits(s: Seq<Ranked>, x: Ranked)
    ensures
        exists|p: int|
            0 <= p <= s.len() && insert_ranked(s, x) =~= s.take(p) + seq![x] + s.skip(p),
    decreases s.len(),
{
    if s.len() == 0 {
        assert(insert_ranked(s, x) =~= s.take(0) + seq![x] + s.skip(0));
    } else if ranks_before(x, s[0]) {
        assert(insert_ranked(s, x) =~= s.take(0) + seq![x] + s.skip(0));
    } else {
        lemma_insert_ranked_splits(s.drop_first(), x);
        let p = choose|p: int|
            0 <= p <= s.drop_first().len() && insert_ranked(s.drop_first(), x) =~= s.drop_first()
                .take(p) + seq![x] + s.drop_first().skip(p);
        assert(insert_ranked(s, x) =~= s.take(p + 1) + seq![x] + s.skip(p + 1));
    }
}

/// Inserting lands exactly at the first position whose entry the new
/// entry ranks before.
pub proof fn lemma_insert_ranked_at(s: Seq<Ranked>, x: Ranked, j: int)
    requires
        0 <= j <= s.len(),
        forall|k: int| 0 <= k < j ==> !ranks_before(x, #[trigger] s[k]),
        j < s.len() ==> ranks_before(x, s[j]),
    ensures
        insert_ranked(s, x) =~= s.take(j) + seq![x] + s.skip(j),
    decreases s.len(),
{
    if s.len() == 0 {
    } else if j == 0 {
    } else {
        assert(!ranks_before(x, s[0]));
        assert(forall|k: int|
            0 <= k < j - 1 ==> !ranks_before(x, #[trigger] s.drop_first()[k]));
        lemma_insert_ranked_at(s.drop_first(), x, j - 1);
    }
}

/// Inserting an entry whose index is new keeps the ranking strictly
/// ordered.
pub proof fn lemma_insert_ranked_ordered(s: Seq<Ranked>, x: Ranked)
    requires
        rank_ordered(s),
        forall|k: int| 0 <= k < s.len() ==> (#[trigger] s[k]).1 != x.1,
    ensures
        rank_ordered(insert_ranked(s, x)),
    decreases s.len(),
{
    let r = insert_ranked(s, x);
    if s.len() == 0 {
    } else if ranks_before(x, s[0]) {
        assert forall|i: int, j: int| 0 <= i < j < r.len() implies ranks_before(r[i], r[j]) by {
            if i == 0 {
                if j == 1 {
                } else {
                    assert(ranks_before(s[0], s[j - 1]));
                }
            }
        }
    } else {
        assert(rank_ordered(s.drop_first())) by {
            assert(forall|i: int, j: int|
                0 <= i < j < s.drop_first().len() ==> ranks_before(
                    s.drop_first()[i],
                    s.drop_first()[j],
                ));
        }
        lemma_insert_ranked_ordered(s.drop_first(), x);
        lemma_insert_ranked_len(s.drop_first(), x);
        let t = insert_ranked(s.drop_first(), x);
        // The head still ranks before everything behind it, including x.
        assert(!ranks_before(x, s[0]) && x.1 != s[0].1 ==> ranks_before(s[0], x));
        lemma_insert_ranked_splits(s.drop_first(), x);
        let p = choose|p: int|
            0 <= p <= s.drop_first().len() && t =~= s.drop_first().take(p) + seq![x]
                + s.drop_first().skip(p);
        assert forall|i: int, j: int| 0 <= i < j < r.len() implies ranks_before(r[i], r[j]) by {
            if i == 0 {
                assert(r[j] == t[j - 1]);
                if j - 1 < p {
                    assert(t[j - 1] == s.drop_first()[j - 1]);
                    assert(ranks_before(s[0], s[j]));
                } else if j - 1 == p {
                    assert(t[j - 1] == x);
                } else {
                    assert(t[j - 1] == s.drop_first()[j - 2]);
                    assert(ranks_before(s[0], s[j - 1]));
                }
            } else {
                assert(r[i] == t[i - 1] && r[j] == t[j - 1]);
            }
        }
    }
}

/// The ranking `r` mentions the collection index `i` somewhere.
pub open spec fn ranking_mentions(r: Seq<Ranked>, i: int) -> bool {
    exists|j: int| 0 <= j < r.len() && (#[trigger] r[j]).1 == i
}

/// What a ranking of `n` scored points is: a permutation of the indices
/// `0 .. n`, strictly ordered, that pairs each index with its score.
pub open spec fn is_ranking_of(r: Seq<Ranked>, scores: Seq<int>, n: nat) -> bool {
    &&& r.len() == n
    &&& rank_ordered(r)
    &&& forall|j: int| 0 <= j < r.len() ==> 0 <= (#[trigger] r[j]).1 < n
    &&& forall|j: int| 0 <= j < r.len() ==> (#[trigger] r[j]).0 == scores[r[j].1]
    &&& forall|j: int, k: int| 0 <= j < k < r.len() ==> r[j].1 != r[k].1
    &&& forall|i: int| 0 <= i < n ==> #[trigger] ranking_mentions(r, i)
}

pub proof fn lemma_ranking_prefix_is_ranking(scores: Seq<int>, n: nat)
    requires
        n <= scores.len(),
    ensures
        is_ranking_of(ranking_prefix(scores, n), scores, n),
    decreases n,
{
    if n == 0 {
    } else {
        let prev = ranking_prefix(scores, (n - 1) as nat);
        lemma_ranking_prefix_is_ranking(scores, (n - 1) as nat);
        let x = (scores[n - 1], (n - 1) as int);
        lemma_insert_ranked_ordered(prev, x);
        lemma_insert_ranked_len(prev, x);
        lemma_insert_ranked_splits(prev, x);
        let r = insert_ranked(prev, x);
        let p = choose|p: int|
            0 <= p <= prev.len() && r =~= prev.take(p) + seq![x] + prev.skip(p);
        assert forall|j: int| 0 <= j < r.len() implies 0 <= (#[trigger] r[j]).1 < n
            && (#[trigger] r[j]).0 == scores[r[j].1] by {
            if j < p {
                assert(r[j] == prev[j]);
            } else if j == p {
                assert(r[j] == x);
            } else {
                assert(r[j] == prev[j - 1]);
            }
        }
        assert forall|j: int, k: int| 0 <= j < k < r.len() implies r[j].1 != r[k].1 by {
            let a = if j < p { prev[j] } else if j == p { x } else { prev[j - 1] };
            assert(r[j] == a);
            let b = if k < p { prev[k] } else if k == p { x } else { prev[k - 1] };
            assert(r[k] == b);
        }
        assert forall|i: int| 0 <= i < n implies #[trigger] ranking_mentions(r, i) by {
            if i == n - 1 {
                assert(r[p] == x);
            } else {
                assert(ranking_mentions(prev, i));
                let j0 = choose|j0: int| 0 <= j0 < prev.len() && (#[trigger] prev[j0]).1 == i;
                if j0 < p {
                    assert(r[j0] == prev[j0]);
                } else {
                    assert(r[j0 + 1] == prev[j0]);
                }
            }
        }
    }
}

/// The ranking of a score sequence is a strictly ordered permutation of
/// its indices that reports each index's own score. This is the ordering
/// guarantee behind similarity search.
pub proof fn lemma_spec_ranking_is_ranking(scores: Seq<int>)
    ensures
        is_ranking_of(spec_ranking(scores), scores, scores.len()),
{
    lemma_ranking_prefix_is_ranking(scores, scores.len());
}

} // verus!
