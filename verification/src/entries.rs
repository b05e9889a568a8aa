//! Buckets as sequences of `(key, value)` entries: lookup by key, key
//! distinctness, placement by hash, and how the entries of many buckets
//! combine into one sequence.

use vstd::prelude::*;
use crate::hash::spec_bucket_index;

verus! {

/// The value of the first entry of `es` whose key reads `k`, if any.
pub open spec fn find_entry(es: Seq<(String, i32)>, k: Seq<char>) -> Option<i32>
    decreases es.len(),
{
    if es.len() == 0 {
        None
    } else if es[0].0@ == k {
        Some(es[0].1)
    } else {
        find_entry(es.drop_first(), k)
    }
}

/// No entry of `es` has key `k`.
pub open spec fn key_absent(es: Seq<(String, i32)>, k: Seq<char>) -> bool {
    forall|j: int| 0 <= j < es.len() ==> (#[trigger] es[j]).0@ != k
}

/// The keys of `es` are pairwise distinct.
pub open spec fn distinct_keys(es: Seq<(String, i32)>) -> bool {
    forall|p: int, q: int| 0 <= p < q < es.len() ==> (#[trigger] es[p]).0@ != (#[trigger] es[q]).0@
}

/// All entries of a sequence of buckets, bucket by bucket in order.
pub open spec fn concat_all(bs: Seq<Seq<(String, i32)>>) -> Seq<(String, i32)>
    decreases bs.len(),
{
    if bs.len() == 0 {
        Seq::empty()
    } else {
        concat_all(bs.drop_last()) + bs.last()
    }
}

/// The sum of the bucket lengths: how many entries the buckets hold in all.
pub open spec fn sum_of_lens(bs: Seq<Seq<(String, i32)>>) -> nat
    decreases bs.len(),
{
    if bs.len() == 0 {
        0
    } else {
        sum_of_lens(bs.drop_last()) + bs.last().len()
    }
}

/// Every entry of bucket `i` hashes to `i` under a table of `n` buckets.
pub open spec fn buckets_placed(bs: Seq<Seq<(String, i32)>>, n: nat) -> bool {
    forall|i: int, j: int|
        0 <= i < bs.len() && 0 <= j < bs[i].len()
            ==> spec_bucket_index((#[trigger] bs[i][j]).0@, n) == i
}

/// Within each single bucket, keys are pairwise distinct.
pub open spec fn buckets_distinct(bs: Seq<Seq<(String, i32)>>) -> bool {
    forall|i: int| 0 <= i < bs.len() ==> distinct_keys(#[trigger] bs[i])
}

/// The contents of a sequence of buckets, each bucket read as its entries.
pub open spec fn views_of(bs: Seq<Vec<(String, i32)>>) -> Seq<Seq<(String, i32)>> {
    bs.map_values(|b: Vec<(String, i32)>| b@)
}

/// A scan that stops at the first matching key returns what the lookup means.
pub proof fn lemma_find_first_match(es: Seq<(String, i32)>, i: int, k: Seq<char>)
    requires
        0 <= i < es.len(),
        es[i].0@ == k,
        forall|j: int| 0 <= j < i ==> (#[trigger] es[j]).0@ != k,
    ensures
        find_entry(es, k) == Some(es[i].1),
    decreases i,
{
    if i > 0 {
        assert(forall|j: int| 0 <= j < i - 1 ==> #[trigger] es.drop_first()[j] == es[j + 1]);
        assert(es.drop_first()[i - 1] == es[i]);
        lemma_find_first_match(es.drop_first(), i - 1, k);
    }
}

/// Appending an entry with a fresh key keeps keys pairwise distinct.
pub proof fn lemma_distinct_push(es: Seq<(String, i32)>, e: (String, i32))
    requires
        distinct_keys(es),
        key_absent(es, e.0@),
    ensures
        distinct_keys(es.push(e)),
{
    let es2 = es.push(e);
    assert forall|p: int, q: int| 0 <= p < q < es2.len() implies (#[trigger] es2[p]).0@ != (
    #[trigger] es2[q]).0@ by {
        if q < es.len() {
            assert(es2[p] == es[p] && es2[q] == es[q]);
        } else {
            assert(es2[q] == e);
            assert(es2[p] == es[p]);
        }
    }
}

/// Removing an entry keeps keys pairwise distinct.
pub proof fn lemma_distinct_remove(es: Seq<(String, i32)>, i: int)
    requires
        distinct_keys(es),
        0 <= i < es.len(),
    ensures
        distinct_keys(es.remove(i)),
{
    es.remove_ensures(i);
    let es2 = es.remove(i);
    assert forall|p: int, q: int| 0 <= p < q < es2.len() implies (#[trigger] es2[p]).0@ != (
    #[trigger] es2[q]).0@ by {
        let p0: int = if p < i { p } else { p + 1 };
        let q0: int = if q < i { q } else { q + 1 };
        assert(es2[p] == es[p0] && es2[q] == es[q0]);
    }
}

/// What a lookup of `k` finds in the bucket `k` hashes to.
pub open spec fn hashed_find(bs: Seq<Seq<(String, i32)>>, n: nat, k: Seq<char>) -> Option<i32> {
    find_entry(bs[spec_bucket_index(k, n) as int], k)
}

/// A lookup misses exactly when the key appears nowhere in the bucket.
pub proof fn lemma_find_none_iff(es: Seq<(String, i32)>, k: Seq<char>)
    ensures
        (find_entry(es, k) is None) <==> key_absent(es, k),
    decreases es.len(),
{
    if es.len() != 0 {
        lemma_find_none_iff(es.drop_first(), k);
        assert(forall|j: int| 1 <= j < es.len() ==> #[trigger] es[j] == es.drop_first()[j - 1]);
    }
}

/// Looking a key up in concatenated buckets searches the left part first.
pub proof fn lemma_find_concat(a: Seq<(String, i32)>, b: Seq<(String, i32)>, k: Seq<char>)
    ensures
        find_entry(a + b, k) == (if find_entry(a, k) is Some {
            find_entry(a, k)
        } else {
            find_entry(b, k)
        }),
    decreases a.len(),
{
    if a.len() == 0 {
        assert(a + b =~= b);
    } else {
        assert((a + b).drop_first() =~= a.drop_first() + b);
        assert((a + b)[0] == a[0]);
        lemma_find_concat(a.drop_first(), b, k);
    }
}

/// Appending an entry leaves every earlier match in force; it is found only
/// where the key was absent before.
pub proof fn lemma_find_push(es: Seq<(String, i32)>, e: (String, i32), k: Seq<char>)
    ensures
        find_entry(es.push(e), k) == (if find_entry(es, k) is Some {
            find_entry(es, k)
        } else if e.0@ == k {
            Some(e.1)
        } else {
            None::<i32>
        }),
{
    reveal_with_fuel(find_entry, 2);
    assert(es.push(e) =~= es + seq![e]);
    lemma_find_concat(es, seq![e], k);
    assert(seq![e].drop_first() =~= Seq::<(String, i32)>::empty());
    assert(seq![e][0] == e);
    assert(find_entry(seq![e], k) == (if e.0@ == k {
        Some(e.1)
    } else {
        None::<i32>
    }));
}

/// Removing an entry whose key is not `k` does not change what a lookup of
/// `k` finds.
pub proof fn lemma_find_remove(es: Seq<(String, i32)>, j: int, k: Seq<char>)
    requires
        0 <= j < es.len(),
        es[j].0@ != k,
    ensures
        find_entry(es.remove(j), k) == find_entry(es, k),
    decreases es.len(),
{
    if j == 0 {
        assert(es.remove(0) =~= es.drop_first());
    } else {
        assert(es.remove(j)[0] == es[0]);
        assert(es.remove(j).drop_first() =~= es.drop_first().remove(j - 1));
        assert(es.drop_first()[j - 1] == es[j]);
        lemma_find_remove(es.drop_first(), j - 1, k);
    }
}

/// Every entry of the concatenation comes from one of the buckets.
pub proof fn lemma_concat_origin(bs: Seq<Seq<(String, i32)>>, x: int)
    requires
        0 <= x < concat_all(bs).len(),
    ensures
        exists|i: int, j: int|
            0 <= i < bs.len() && 0 <= j < bs[i].len() && concat_all(bs)[x] == bs[i][j],
    decreases bs.len(),
{
    let pre = bs.drop_last();
    if x < concat_all(pre).len() {
        lemma_concat_origin(pre, x);
        let (i, j): (int, int) = choose|i: int, j: int|
            0 <= i < pre.len() && 0 <= j < pre[i].len() && concat_all(pre)[x] == pre[i][j];
        assert(0 <= i < bs.len() && 0 <= j < bs[i].len() && concat_all(bs)[x] == bs[i][j]);
    } else {
        let i = bs.len() - 1;
        let j = x - concat_all(pre).len();
        assert(0 <= i < bs.len() && 0 <= j < bs[i].len() && concat_all(bs)[x] == bs[i][j]);
    }
}

/// Buckets that place every key in its hash bucket and are each free of
/// duplicate keys hold pairwise-distinct keys overall.
pub proof fn lemma_concat_distinct(bs: Seq<Seq<(String, i32)>>, n: nat)
    requires
        buckets_placed(bs, n),
        buckets_distinct(bs),
    ensures
        distinct_keys(concat_all(bs)),
    decreases bs.len(),
{
    if bs.len() != 0 {
        let pre = bs.drop_last();
        let li = bs.len() - 1;
        let c = concat_all(bs);
        let cp = concat_all(pre);
        assert(forall|i: int| 0 <= i < pre.len() ==> #[trigger] pre[i] == bs[i]);
        lemma_concat_distinct(pre, n);
        assert forall|p: int, q: int| 0 <= p < q < c.len() implies c[p].0@ != c[q].0@ by {
            if q < cp.len() {
                assert(c[p] == cp[p] && c[q] == cp[q]);
            } else if p >= cp.len() {
                assert(c[p] == bs[li][p - cp.len()] && c[q] == bs[li][q - cp.len()]);
            } else {
                lemma_concat_origin(pre, p);
                let (i, j): (int, int) = choose|i: int, j: int|
                    0 <= i < pre.len() && 0 <= j < pre[i].len() && cp[p] == pre[i][j];
                assert(c[p] == bs[i][j]);
                assert(spec_bucket_index(c[p].0@, n) == i);
                assert(c[q] == bs[li][q - cp.len()]);
                assert(spec_bucket_index(c[q].0@, n) == li);
            }
        };
    }
}

/// Under correct placement, a lookup over all buckets in order finds exactly
/// what a lookup in the key's hash bucket finds.
pub proof fn lemma_find_hashed(bs: Seq<Seq<(String, i32)>>, n: nat, k: Seq<char>)
    requires
        buckets_placed(bs, n),
    ensures
        find_entry(concat_all(bs), k) == (if spec_bucket_index(k, n) < bs.len() {
            find_entry(bs[spec_bucket_index(k, n) as int], k)
        } else {
            None::<i32>
        }),
    decreases bs.len(),
{
    let h = spec_bucket_index(k, n) as int;
    if bs.len() != 0 {
        let pre = bs.drop_last();
        let li = bs.len() - 1;
        assert(forall|i: int| 0 <= i < pre.len() ==> #[trigger] pre[i] == bs[i]);
        lemma_find_hashed(pre, n, k);
        lemma_find_concat(concat_all(pre), bs.last(), k);
        assert(bs.last() == bs[li]);
        if h != li {
            assert(key_absent(bs[li], k)) by {
                assert forall|j: int| 0 <= j < bs[li].len() implies (#[trigger] bs[li][j]).0@
                    != k by {
                    if bs[li][j].0@ == k {
                        assert(spec_bucket_index(k, n) == li);
                    }
                }
            };
            lemma_find_none_iff(bs[li], k);
        }
    }
}

/// Concatenating one more bucket extends the entry sequence at the end.
pub proof fn lemma_concat_take_succ(bs: Seq<Seq<(String, i32)>>, i: int)
    requires
        0 <= i < bs.len(),
    ensures
        concat_all(bs.take(i + 1)) == concat_all(bs.take(i)) + bs[i],
        sum_of_lens(bs.take(i + 1)) == sum_of_lens(bs.take(i)) + bs[i].len(),
{
    assert(bs.take(i + 1).drop_last() =~= bs.take(i));
    assert(bs.take(i + 1).last() == bs[i]);
}

/// Taking every bucket is taking the whole sequence.
pub proof fn lemma_take_all(bs: Seq<Seq<(String, i32)>>)
    ensures
        concat_all(bs.take(bs.len() as int)) == concat_all(bs),
        sum_of_lens(bs.take(bs.len() as int)) == sum_of_lens(bs),
{
    assert(bs.take(bs.len() as int) =~= bs);
}

/// Replacing one bucket changes the entry total by the difference in length.
pub proof fn lemma_sum_update(bs: Seq<Seq<(String, i32)>>, t: int, v: Seq<(String, i32)>)
    requires
        0 <= t < bs.len(),
    ensures
        sum_of_lens(bs.update(t, v)) == sum_of_lens(bs) - bs[t].len() + v.len(),
    decreases bs.len(),
{
    let li = bs.len() - 1;
    if t == li {
        assert(bs.update(t, v).drop_last() =~= bs.drop_last());
        assert(bs.update(t, v).last() == v);
    } else {
        assert(bs.update(t, v).drop_last() =~= bs.drop_last().update(t, v));
        assert(bs.update(t, v).last() == bs.last());
        lemma_sum_update(bs.drop_last(), t, v);
    }
}

/// No single bucket holds more entries than all buckets together.
pub proof fn lemma_sum_bound(bs: Seq<Seq<(String, i32)>>, i: int)
    requires
        0 <= i < bs.len(),
    ensures
        bs[i].len() <= sum_of_lens(bs),
    decreases bs.len(),
{
    let li = bs.len() - 1;
    if i != li {
        lemma_sum_bound(bs.drop_last(), i);
        assert(bs.drop_last()[i] == bs[i]);
    }
}

/// Buckets that are all empty hold no entries at all.
pub proof fn lemma_sum_all_empty(bs: Seq<Seq<(String, i32)>>)
    requires
        forall|i: int| 0 <= i < bs.len() ==> (#[trigger] bs[i]).len() == 0,
    ensures
        sum_of_lens(bs) == 0,
    decreases bs.len(),
{
    if bs.len() != 0 {
        assert(forall|i: int| 0 <= i < bs.drop_last().len() ==> #[trigger] bs.drop_last()[i]
            == bs[i]);
        lemma_sum_all_empty(bs.drop_last());
    }
}

/// The concatenation holds as many entries as the bucket lengths sum to.
pub proof fn lemma_sum_is_concat_len(bs: Seq<Seq<(String, i32)>>)
    ensures
        concat_all(bs).len() == sum_of_lens(bs),
    decreases bs.len(),
{
    if bs.len() != 0 {
        lemma_sum_is_concat_len(bs.drop_last());
    }
}

} // verus!
