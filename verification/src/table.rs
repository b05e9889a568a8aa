//! The hash table itself: a vector of buckets, each a vector of
//! `(key, value)` entries, together with a live entry count and the
//! load-factor policy that grows and shrinks the bucket vector.

use vstd::prelude::*;

use crate::entries::buckets_distinct;
use crate::entries::buckets_placed;
use crate::entries::concat_all;
use crate::entries::distinct_keys;
use crate::entries::find_entry;
use crate::entries::hashed_find;
use crate::entries::key_absent;
use crate::entries::lemma_distinct_push;
use crate::entries::lemma_distinct_remove;
use crate::entries::lemma_find_first_match;
use crate::entries::lemma_find_none_iff;
use crate::entries::lemma_find_push;
use crate::entries::lemma_find_remove;
use crate::entries::lemma_sum_all_empty;
use crate::entries::sum_of_lens;
use crate::entries::views_of;
use crate::hash::fnv1a_hash;
use crate::hash::spec_bucket_index;
use crate::keys::str_eq;

verus! {

/// The bucket count a fresh table starts with, and the floor the table
/// never shrinks below.
pub const MIN_BUCKET_COUNT: usize = 10;

/// The load factor (entries per bucket) above which the table grows,
/// as the exact ratio 3/2.
pub const MAX_LOAD_FACTOR_NUM: u128 = 3;

/// Denominator of the growth threshold 3/2.
pub const MAX_LOAD_FACTOR_DEN: u128 = 2;

/// The load factor below which the table considers shrinking,
/// as the exact ratio 1/4.
pub const MIN_LOAD_FACTOR_NUM: u128 = 1;

/// Denominator of the shrink threshold 1/4.
pub const MIN_LOAD_FACTOR_DEN: u128 = 4;

/// The factor by which the bucket count grows (and shrinks, inverted),
/// as the exact ratio 7/5.
pub const RESIZE_FACTOR_NUM: u128 = 7;

/// Denominator of the resize factor 7/5.
pub const RESIZE_FACTOR_DEN: u128 = 5;

/// The bucket count the resize policy selects for a table holding
/// `entries` entries over `buckets` buckets: grow to `ceil(buckets * 7/5)`
/// when the load factor tops 3/2, shrink to `ceil(buckets * 5/7)` when it
/// falls under 1/4 and half the bucket count still clears the floor, and
/// keep the count otherwise. The comparisons are exact rationals.
pub open spec fn spec_next_bucket_count(entries: nat, buckets: nat) -> nat {
    if MAX_LOAD_FACTOR_DEN * entries > MAX_LOAD_FACTOR_NUM * buckets {
        ((RESIZE_FACTOR_NUM * buckets + RESIZE_FACTOR_DEN - 1) / RESIZE_FACTOR_DEN as int) as nat
    } else if MIN_LOAD_FACTOR_DEN * entries < MIN_LOAD_FACTOR_NUM * buckets && buckets / 2
        > MIN_BUCKET_COUNT {
        ((RESIZE_FACTOR_DEN * buckets + RESIZE_FACTOR_NUM - 1) / RESIZE_FACTOR_NUM as int) as nat
    } else {
        buckets
    }
}

/// A separate-chaining hash table from text keys to 32-bit integers.
///
/// Keys are unique across the table; every entry sits in the bucket its
/// key's FNV-1a hash selects under the current bucket count.
pub struct HashMap {
    buckets: Vec<Vec<(String, i32)>>,
    entries_count: u32,
}

impl HashMap {
    /// The buckets' contents, bucket by bucket in index order.
    pub closed spec fn spec_buckets(self) -> Seq<Seq<(String, i32)>> {
        views_of(self.buckets@)
    }

    /// How many buckets the table currently has.
    pub open spec fn spec_buckets_count(self) -> nat {
        self.spec_buckets().len()
    }

    /// How many live entries the table believes it holds.
    pub closed spec fn spec_entries_count(self) -> nat {
        self.entries_count as nat
    }

    /// The value stored under key `k`: the first match in the bucket the
    /// key hashes to.
    pub open spec fn spec_get(self, k: Seq<char>) -> Option<i32> {
        hashed_find(self.spec_buckets(), self.spec_buckets_count(), k)
    }

    /// Well-formedness: at least the floor number of buckets, a count that
    /// matches the entries actually stored, every entry in the bucket its
    /// key hashes to, and no key twice in a bucket.
    pub open spec fn wf(self) -> bool {
        &&& self.spec_buckets_count() >= MIN_BUCKET_COUNT
        &&& self.spec_entries_count() == sum_of_lens(self.spec_buckets())
        &&& buckets_placed(self.spec_buckets(), self.spec_buckets_count())
        &&& buckets_distinct(self.spec_buckets())
    }
}

impl View for HashMap {
    type V = Map<Seq<char>, i32>;

    /// The table read as a map: each key present is bound to its stored value.
    closed spec fn view(&self) -> Map<Seq<char>, i32> {
        Map::new(
            |k: Seq<char>| self.spec_get(k) is Some,
            |k: Seq<char>| self.spec_get(k).unwrap(),
        )
    }
}

impl HashMap {
    /// A fresh table: `MIN_BUCKET_COUNT` empty buckets and no entries.
    pub fn new() -> (r: HashMap)
        ensures
            r.wf(),
            r@ == Map::<Seq<char>, i32>::empty(),
            r.spec_entries_count() == 0,
            r.spec_buckets_count() == MIN_BUCKET_COUNT,
            forall|x: int| 0 <= x < MIN_BUCKET_COUNT ==> (#[trigger] r.spec_buckets()[x]).len()
                == 0,
    {
        let mut buckets: Vec<Vec<(String, i32)>> = Vec::with_capacity(MIN_BUCKET_COUNT);
        let mut i: usize = 0;
        while i < MIN_BUCKET_COUNT
            invariant
                i <= MIN_BUCKET_COUNT,
                buckets@.len() == i,
                forall|t: int| 0 <= t < i ==> (#[trigger] buckets@[t])@.len() == 0,
            decreases MIN_BUCKET_COUNT - i,
        {
            buckets.push(Vec::new());
            i = i + 1;
        }
        let r = HashMap { buckets, entries_count: 0 };
        proof {
            crate::entries::lemma_sum_all_empty(r.spec_buckets());
            assert(r@ =~= Map::<Seq<char>, i32>::empty());
        }
        r
    }

    /// The bucket index of `key` in a table of `bucket_count` buckets: the
    /// 64-bit FNV-1a hash of the key, reduced modulo the bucket count.
    fn hash(key: &str, bucket_count: usize) -> (r: usize)
        requires
            bucket_count >= 1,
        ensures
            r as nat == spec_bucket_index(key@, bucket_count as nat),
            r < bucket_count,
    {
        let h = fnv1a_hash(key);
        let m = h % (bucket_count as u64);
        m as usize
    }

    /// Look `key` up without mutating: the stored value, or absent.
    pub fn get(&self, key: &str) -> (r: Option<i32>)
        requires
            self.wf(),
        ensures
            r == self.spec_get(key@),
            r is Some <==> self@.contains_key(key@),
            r matches Some(v) ==> self@[key@] == v,
    {
        let idx = Self::hash(key, self.buckets.len());
        let bucket = &self.buckets[idx];
        let ghost es = self.spec_buckets()[idx as int];
        let mut i: usize = 0;
        while i < bucket.len()
            invariant
                self.wf(),
                idx < self.buckets@.len(),
                idx as nat == spec_bucket_index(key@, self.spec_buckets_count()),
                es == self.spec_buckets()[idx as int],
                bucket@ == es,
                i <= es.len(),
                forall|j: int| 0 <= j < i ==> (#[trigger] es[j]).0@ != key@,
            decreases es.len() - i,
        {
            if str_eq(bucket[i].0.as_str(), key) {
                proof {
                    lemma_find_first_match(es, i as int, key@);
                }
                return Some(bucket[i].1);
            }
            i = i + 1;
        }
        proof {
            lemma_find_none_iff(es, key@);
        }
        None
    }

    /// A bucket's entries, by index; an error when the index is not a
    /// current bucket slot.
    pub fn get_bucket(&self, idx: usize) -> (r: Result<&Vec<(String, i32)>, String>)
        ensures
            r is Ok <==> idx < self.spec_buckets_count(),
            r matches Ok(b) ==> b@ == self.spec_buckets()[idx as int],
            r matches Err(m) ==> m@ == "bucket index out of bounds"@,
    {
        if idx < self.buckets.len() {
            Ok(&self.buckets[idx])
        } else {
            Err("bucket index out of bounds".to_owned())
        }
    }

    /// Store `value` under `key`: any previous entry for the key goes away,
    /// the new entry is appended to the key's bucket, and the resize policy
    /// is re-evaluated. The entry count can only grow to the counter's
    /// capacity, which every reachable table satisfies strictly.
    pub fn set(&mut self, key: &str, value: i32)
        requires
            old(self).wf(),
            old(self).spec_entries_count() < u32::MAX,
        ensures
            final(self).wf(),
            final(self)@ == old(self)@.insert(key@, value),
            final(self).spec_entries_count() == old(self).spec_entries_count() + (
            if old(self)@.contains_key(key@) {
                0int
            } else {
                1int
            }),
            final(self).spec_buckets_count() == spec_next_bucket_count(
                final(self).spec_entries_count(),
                spec_next_bucket_count(
                    (final(self).spec_entries_count() - 1) as nat,
                    old(self).spec_buckets_count(),
                ),
            ),
    {
        self.delete(key);
        let ghost mid = *self;
        let idx = Self::hash(key, self.buckets.len());
        let ghost obs = mid.spec_buckets();
        let ghost on = mid.spec_buckets_count();
        let ghost es = obs[idx as int];

        proof {
            // `delete` left no binding for the key, so its bucket has none
            assert(!mid@.contains_key(key@));
            assert(mid.spec_get(key@) is None);
            assert(hashed_find(obs, on, key@) is None);
            lemma_find_none_iff(es, key@);
        }

        let kcopy = key.to_owned();
        let ghost enew = (kcopy, value);
        let b = &mut self.buckets[idx];
        b.push((kcopy, value));
        self.entries_count = self.entries_count + 1;

        proof {
            let nbs = self.spec_buckets();
            assert(nbs =~= obs.update(idx as int, es.push(enew)));
            crate::entries::lemma_sum_update(obs, idx as int, es.push(enew));
            lemma_distinct_push(es, enew);
            assert forall|x: int, y: int|
                0 <= x < nbs.len() && 0 <= y < nbs[x].len() implies spec_bucket_index(
                (#[trigger] nbs[x][y]).0@,
                on,
            ) == x by {
                if x == idx as int && y == es.len() {
                    assert(nbs[x][y] == enew);
                } else if x == idx as int {
                    assert(nbs[x][y] == es[y]);
                } else {
                    assert(nbs[x] == obs[x]);
                }
            };
            assert(buckets_distinct(nbs)) by {
                assert forall|x: int| 0 <= x < nbs.len() implies distinct_keys(
                    #[trigger] nbs[x],
                ) by {
                    if x != idx as int {
                        assert(nbs[x] == obs[x]);
                    }
                }
            };
            assert forall|k: Seq<char>| #[trigger] hashed_find(nbs, on, k) == (
            if k == key@ {
                Some(value)
            } else {
                hashed_find(obs, on, k)
            }) by {
                let h = spec_bucket_index(k, on) as int;
                if h == idx as int {
                    lemma_find_push(es, enew, k);
                } else {
                    assert(nbs[h] == obs[h]);
                }
            };
            assert(self@ =~= mid@.insert(key@, value));
            assert(mid@.insert(key@, value) =~= old(self)@.insert(key@, value));
        }
        self.resize_if_necessary();
    }

    /// Remove the entry stored under `key`, if there is one, then
    /// re-evaluate the resize policy.
    #[verifier::loop_isolation(false)]
    pub fn delete(&mut self, key: &str)
        requires
            old(self).wf(),
        ensures
            final(self).wf(),
            final(self)@ == old(self)@.remove(key@),
            final(self).spec_entries_count() == old(self).spec_entries_count() - (
            if old(self)@.contains_key(key@) {
                1int
            } else {
                0int
            }),
            final(self).spec_buckets_count() == spec_next_bucket_count(
                final(self).spec_entries_count(),
                old(self).spec_buckets_count(),
            ),
    {
        let idx = Self::hash(key, self.buckets.len());
        let ghost obs = self.spec_buckets();
        let ghost on = self.spec_buckets_count();
        let ghost es = obs[idx as int];

        let bucket = &self.buckets[idx];
        let mut i: usize = 0;
        let mut found: bool = false;
        while i < bucket.len() && !found
            invariant
                i <= es.len(),
                forall|j: int| 0 <= j < i ==> (#[trigger] es[j]).0@ != key@,
                found ==> i < es.len() && es[i as int].0@ == key@,
            decreases es.len() - i + (if found {
                0int
            } else {
                1int
            }),
        {
            if str_eq(bucket[i].0.as_str(), key) {
                found = true;
            } else {
                i = i + 1;
            }
        }

        if found {
            proof {
                lemma_find_first_match(es, i as int, key@);
                assert(old(self)@.contains_key(key@));
                crate::entries::lemma_sum_bound(obs, idx as int);
            }
            let b = &mut self.buckets[idx];
            b.remove(i);
            self.entries_count = self.entries_count - 1;
            proof {
                let es2 = es.remove(i as int);
                let nbs = self.spec_buckets();
                assert(nbs =~= obs.update(idx as int, es2));
                es.remove_ensures(i as int);
                crate::entries::lemma_sum_update(obs, idx as int, es2);
                lemma_distinct_remove(es, i as int);
                // each remaining entry of the shortened bucket is an old one
                assert forall|x: int, y: int|
                    0 <= x < nbs.len() && 0 <= y < nbs[x].len() implies spec_bucket_index(
                    (#[trigger] nbs[x][y]).0@,
                    on,
                ) == x by {
                    if x == idx as int {
                        let y0: int = if y < i as int {
                            y
                        } else {
                            y + 1
                        };
                        assert(nbs[x][y] == es[y0]);
                        assert(spec_bucket_index(es[y0].0@, on) == x);
                    } else {
                        assert(nbs[x][y] == obs[x][y]);
                    }
                };
                assert(buckets_distinct(nbs)) by {
                    assert forall|x: int| 0 <= x < nbs.len() implies distinct_keys(
                        #[trigger] nbs[x],
                    ) by {
                        if x != idx as int {
                            assert(nbs[x] == obs[x]);
                        }
                    }
                };
                // the key is gone, every other key keeps its binding
                assert(key_absent(es2, key@)) by {
                    assert forall|y: int| 0 <= y < es2.len() implies (#[trigger] es2[y]).0@
                        != key@ by {
                        let y0: int = if y < i as int {
                            y
                        } else {
                            y + 1
                        };
                        assert(es2[y] == es[y0]);
                    }
                };
                lemma_find_none_iff(es2, key@);
                assert forall|k: Seq<char>| #[trigger] hashed_find(nbs, on, k) == (
                if k == key@ {
                    None::<i32>
                } else {
                    hashed_find(obs, on, k)
                }) by {
                    let h = spec_bucket_index(k, on) as int;
                    if h == idx as int {
                        if k != key@ {
                            lemma_find_remove(es, i as int, k);
                        }
                    } else {
                        assert(nbs[h] == obs[h]);
                    }
                };
                assert(self@ =~= old(self)@.remove(key@));
            }
        } else {
            proof {
                assert(i == es.len());
                lemma_find_none_iff(es, key@);
                assert(!old(self)@.contains_key(key@));
                assert(self@ =~= old(self)@.remove(key@));
            }
        }
        self.resize_if_necessary();
    }

    /// Decide from the load factor whether to grow or shrink, and by how
    /// much: grow to `ceil(count * 7/5)` when `entries / count > 3/2`,
    /// shrink to `ceil(count * 5/7)` when `entries / count < 1/4` and half
    /// the bucket count would still clear the floor. The ratios are exact;
    /// no rounding enters the comparisons.
    fn resize_if_necessary(&mut self)
        requires
            old(self).wf(),
        ensures
            final(self).wf(),
            final(self)@ == old(self)@,
            final(self).spec_entries_count() == old(self).spec_entries_count(),
            final(self).spec_buckets_count() == spec_next_bucket_count(
                old(self).spec_entries_count(),
                old(self).spec_buckets_count(),
            ),
    {
        let n = self.buckets.len();
        let ec = self.entries_count;
        if MAX_LOAD_FACTOR_DEN * (ec as u128) > MAX_LOAD_FACTOR_NUM * (n as u128) {
            let grown = (RESIZE_FACTOR_NUM * (n as u128) + (RESIZE_FACTOR_DEN - 1))
                / RESIZE_FACTOR_DEN;
            proof {
                assert(3 * (n as u128) < 2 * (ec as u128));
                assert(grown <= 4008636141);
                assert(grown <= usize::MAX);
            }
            self.resize(grown as usize);
        } else if MIN_LOAD_FACTOR_DEN * (ec as u128) < MIN_LOAD_FACTOR_NUM * (n as u128) && n / 2
            > MIN_BUCKET_COUNT {
            let shrunk = (RESIZE_FACTOR_DEN * (n as u128) + (RESIZE_FACTOR_NUM - 1))
                / RESIZE_FACTOR_NUM;
            proof {
                assert(n >= 22);
                assert(shrunk < n as u128);
                assert(shrunk >= MIN_BUCKET_COUNT);
            }
            self.resize(shrunk as usize);
        }
    }

    /// Re-hash every stored entry into `new_bucket_count` fresh buckets,
    /// replacing the old bucket vector wholesale.
    #[verifier::loop_isolation(false)]
    fn resize(&mut self, new_bucket_count: usize)
        requires
            old(self).wf(),
            new_bucket_count >= MIN_BUCKET_COUNT,
        ensures
            final(self).wf(),
            final(self)@ == old(self)@,
            final(self).spec_entries_count() == old(self).spec_entries_count(),
            final(self).spec_buckets_count() == new_bucket_count as nat,
    {
        let ghost obs = self.spec_buckets();
        let ghost on = self.spec_buckets_count();
        let ghost nn = new_bucket_count as nat;

        let mut new_buckets: Vec<Vec<(String, i32)>> = Vec::with_capacity(new_bucket_count);
        let mut t: usize = 0;
        while t < new_bucket_count
            invariant
                t <= new_bucket_count,
                new_buckets@.len() == t,
                forall|x: int| 0 <= x < t ==> (#[trigger] new_buckets@[x])@.len() == 0,
            decreases new_bucket_count - t,
        {
            new_buckets.push(Vec::new());
            t = t + 1;
        }

        proof {
            lemma_sum_all_empty(views_of(new_buckets@));
            assert(obs.take(0) =~= Seq::<Seq<(String, i32)>>::empty());
            assert(forall|k: Seq<char>| #[trigger] hashed_find(views_of(new_buckets@), nn, k)
                is None) by {
                assert forall|k: Seq<char>| #[trigger] hashed_find(views_of(new_buckets@), nn, k)
                    is None by {
                    let h = spec_bucket_index(k, nn) as int;
                    assert(views_of(new_buckets@)[h].len() == 0);
                }
            }
        }

        let mut i: usize = 0;
        while i < self.buckets.len()
            invariant
                i <= obs.len(),
                new_buckets@.len() == nn,
                buckets_placed(views_of(new_buckets@), nn),
                buckets_distinct(views_of(new_buckets@)),
                sum_of_lens(views_of(new_buckets@)) == sum_of_lens(obs.take(i as int)),
                forall|k: Seq<char>| #[trigger] hashed_find(views_of(new_buckets@), nn, k)
                    == find_entry(concat_all(obs.take(i as int)), k),
            decreases obs.len() - i,
        {
            let ghost bi = obs[i as int];
            let mut j: usize = 0;
            while j < self.buckets[i].len()
                invariant
                    0 <= i < obs.len(),
                    j <= bi.len(),
                    new_buckets@.len() == nn,
                    buckets_placed(views_of(new_buckets@), nn),
                    buckets_distinct(views_of(new_buckets@)),
                    sum_of_lens(views_of(new_buckets@)) == sum_of_lens(obs.take(i as int)) + j,
                    forall|k: Seq<char>| #[trigger] hashed_find(views_of(new_buckets@), nn, k)
                        == find_entry(
                        concat_all(obs.take(i as int)) + bi.take(j as int),
                        k,
                    ),
                decreases bi.len() - j,
            {
                let ghost nv0 = views_of(new_buckets@);
                let ghost processed = concat_all(obs.take(i as int)) + bi.take(j as int);
                let ghost e_old = bi[j as int];

                let entry = &self.buckets[i][j];
                let idx2 = Self::hash(entry.0.as_str(), new_bucket_count);
                let kcopy = entry.0.as_str().to_owned();
                let val = entry.1;
                let ghost enew = (kcopy, val);
                let b = &mut new_buckets[idx2];
                b.push((kcopy, val));

                proof {
                    let nv1 = views_of(new_buckets@);
                    assert(enew.0@ == e_old.0@ && enew.1 == e_old.1);
                    assert(nv1 =~= nv0.update(idx2 as int, nv0[idx2 as int].push(enew)));
                    assert(spec_bucket_index(e_old.0@, nn) == idx2 as nat);
                    assert(spec_bucket_index(e_old.0@, on) == i as nat);

                    // the key being moved is not yet among the processed ones
                    assert(key_absent(concat_all(obs.take(i as int)), e_old.0@)) by {
                        let cpre = concat_all(obs.take(i as int));
                        assert forall|p: int| 0 <= p < cpre.len() implies (
                        #[trigger] cpre[p]).0@ != e_old.0@ by {
                            crate::entries::lemma_concat_origin(obs.take(i as int), p);
                            let (x, y): (int, int) = choose|x: int, y: int|
                                0 <= x < obs.take(i as int).len() && 0 <= y < obs.take(
                                    i as int,
                                )[x].len() && cpre[p] == obs.take(i as int)[x][y];
                            assert(obs.take(i as int)[x] == obs[x]);
                            assert(spec_bucket_index(cpre[p].0@, on) == x);
                        }
                    };
                    assert(key_absent(bi.take(j as int), e_old.0@)) by {
                        assert forall|y: int| 0 <= y < j as int implies (#[trigger] bi.take(
                            j as int,
                        )[y]).0@ != e_old.0@ by {
                            assert(bi.take(j as int)[y] == bi[y]);
                        }
                    };
                    assert(find_entry(processed, e_old.0@) is None) by {
                        crate::entries::lemma_find_concat(
                            concat_all(obs.take(i as int)),
                            bi.take(j as int),
                            e_old.0@,
                        );
                        lemma_find_none_iff(concat_all(obs.take(i as int)), e_old.0@);
                        lemma_find_none_iff(bi.take(j as int), e_old.0@);
                    };
                    assert(find_entry(nv0[idx2 as int], e_old.0@) is None) by {
                        assert(hashed_find(nv0, nn, e_old.0@) == find_entry(
                            processed,
                            e_old.0@,
                        ));
                    };
                    lemma_find_none_iff(nv0[idx2 as int], e_old.0@);
                    lemma_distinct_push(nv0[idx2 as int], enew);
                    crate::entries::lemma_sum_update(
                        nv0,
                        idx2 as int,
                        nv0[idx2 as int].push(enew),
                    );

                    // placement still holds with the new entry in its bucket
                    assert forall|x: int, y: int|
                        0 <= x < nv1.len() && 0 <= y < nv1[x].len() implies spec_bucket_index(
                        (#[trigger] nv1[x][y]).0@,
                        nn,
                    ) == x by {
                        if x == idx2 as int && y == nv0[idx2 as int].len() {
                            assert(nv1[x][y] == enew);
                        } else if x == idx2 as int {
                            assert(nv1[x][y] == nv0[x][y]);
                        } else {
                            assert(nv1[x] == nv0[x]);
                        }
                    };
                    assert(buckets_distinct(nv1)) by {
                        assert forall|x: int| 0 <= x < nv1.len() implies distinct_keys(
                            #[trigger] nv1[x],
                        ) by {
                            if x != idx2 as int {
                                assert(nv1[x] == nv0[x]);
                            }
                        }
                    };

                    // one more processed entry, found exactly as before
                    let processed2 = concat_all(obs.take(i as int)) + bi.take(j as int + 1);
                    assert(bi.take(j as int + 1) =~= bi.take(j as int).push(e_old));
                    assert(processed2 =~= processed.push(e_old));
                    assert forall|k: Seq<char>| #[trigger] hashed_find(nv1, nn, k)
                        == find_entry(processed2, k) by {
                        let h = spec_bucket_index(k, nn) as int;
                        lemma_find_push(processed, e_old, k);
                        if h == idx2 as int {
                            lemma_find_push(nv0[idx2 as int], enew, k);
                            assert(hashed_find(nv0, nn, k) == find_entry(processed, k));
                        } else {
                            assert(nv1[h] == nv0[h]);
                            assert(hashed_find(nv0, nn, k) == find_entry(processed, k));
                            if find_entry(processed, k) is None && e_old.0@ == k {
                                assert(spec_bucket_index(k, nn) == idx2 as nat);
                            }
                        }
                    };
                }
                j = j + 1;
            }
            proof {
                assert(bi.take(bi.len() as int) =~= bi);
                crate::entries::lemma_concat_take_succ(obs, i as int);
            }
            i = i + 1;
        }

        proof {
            crate::entries::lemma_take_all(obs);
        }
        self.buckets = new_buckets;
        proof {
            let nbs = self.spec_buckets();
            crate::entries::lemma_sum_is_concat_len(obs);
            assert forall|k: Seq<char>| #[trigger] hashed_find(nbs, nn, k) == hashed_find(
                obs,
                on,
                k,
            ) by {
                crate::entries::lemma_find_hashed(obs, on, k);
            };
            assert(self@ =~= old(self)@);
        }
    }

    /// How many live entries the table holds.
    pub fn get_entries_count(&self) -> (r: u32)
        ensures
            r as nat == self.spec_entries_count(),
    {
        self.entries_count
    }

    /// How many buckets the table currently has.
    pub fn get_buckets_count(&self) -> (r: usize)
        ensures
            r as nat == self.spec_buckets_count(),
    {
        self.buckets.len()
    }
}

/// Law: storing a value under a key binds exactly that key to that value,
/// so a lookup of the key right after `set` yields the value just stored.
pub proof fn lemma_set_then_get(m: Map<Seq<char>, i32>, k: Seq<char>, v: i32)
    ensures
        m.insert(k, v).contains_key(k),
        m.insert(k, v)[k] == v,
        forall|k2: Seq<char>|
            k2 != k ==> (#[trigger] m.insert(k, v).contains_key(k2)) == m.contains_key(k2),
        forall|k2: Seq<char>|
            k2 != k && m.contains_key(k2) ==> #[trigger] m.insert(k, v)[k2] == m[k2],
{
}

/// Law: a second store under the same key overwrites the first — the table
/// afterwards is as if only the second store had happened — and the key is
/// already bound when the second store runs, so the entry count does not
/// count the key twice.
pub proof fn lemma_overwrite(m: Map<Seq<char>, i32>, k: Seq<char>, v1: i32, v2: i32)
    ensures
        m.insert(k, v1).insert(k, v2) == m.insert(k, v2),
        m.insert(k, v1).insert(k, v2)[k] == v2,
        m.insert(k, v1).contains_key(k),
{
    assert(m.insert(k, v1).insert(k, v2) =~= m.insert(k, v2));
}

/// Law: after a store and then a deletion of the same key, the key is
/// absent, and the store had bound it, so the deletion lowers the entry
/// count by exactly one; deleting a key that is not bound leaves the table
/// exactly as it was.
pub proof fn lemma_delete_removes(m: Map<Seq<char>, i32>, k: Seq<char>, v: i32)
    ensures
        !m.insert(k, v).remove(k).contains_key(k),
        m.insert(k, v).contains_key(k),
        !m.contains_key(k) ==> m.remove(k) == m,
{
    if !m.contains_key(k) {
        assert(m.remove(k) =~= m);
    }
}

/// Law: the entry counter always equals both the sum of the bucket lengths
/// and the number of distinct keys the table holds.
pub proof fn lemma_entry_count_invariant(m: HashMap)
    requires
        m.wf(),
    ensures
        m.spec_entries_count() == sum_of_lens(m.spec_buckets()),
        m.spec_entries_count() == m@.dom().len(),
{
    let bs = m.spec_buckets();
    let n = m.spec_buckets_count();
    let c = concat_all(bs);
    crate::entries::lemma_sum_is_concat_len(bs);
    crate::entries::lemma_concat_distinct(bs, n);
    let keys = c.map_values(|e: (String, i32)| e.0@);
    assert(keys.no_duplicates()) by {
        assert forall|p: int, q: int|
            0 <= p < keys.len() && 0 <= q < keys.len() && p != q implies keys[p] != keys[q] by {
            assert(keys[p] == c[p].0@ && keys[q] == c[q].0@);
        }
    };
    keys.unique_seq_to_set();
    assert(m@.dom() =~= keys.to_set()) by {
        assert forall|k: Seq<char>|
            m@.dom().contains(k) <==> keys.to_set().contains(k) by {
            crate::entries::lemma_find_hashed(bs, n, k);
            lemma_find_none_iff(c, k);
            if keys.to_set().contains(k) {
                let j = choose|j: int| 0 <= j < keys.len() && keys[j] == k;
                assert(c[j].0@ == k);
                assert(!key_absent(c, k));
            }
            if !key_absent(c, k) {
                let j = choose|j: int| 0 <= j < c.len() && (#[trigger] c[j]).0@ == k;
                assert(keys[j] == k);
                assert(keys.contains(k));
            }
        }
    };
}

/// Law: the bucket count of a well-formed table never sits below the floor
/// `MIN_BUCKET_COUNT`, no matter what operations produced the table.
pub proof fn lemma_bucket_count_floor(m: HashMap)
    requires
        m.wf(),
    ensures
        m.spec_buckets_count() >= MIN_BUCKET_COUNT,
{
}

/// Law: immediately after any operation, every stored entry `(k, v)` sits
/// in the bucket `k` hashes to under the current bucket count, and a lookup
/// of `k` yields `v`.
pub proof fn lemma_entries_placed(m: HashMap)
    requires
        m.wf(),
    ensures
        forall|x: int, y: int|
            0 <= x < m.spec_buckets().len() && 0 <= y < m.spec_buckets()[x].len()
                ==> spec_bucket_index(
                (#[trigger] m.spec_buckets()[x][y]).0@,
                m.spec_buckets_count(),
            ) == x,
        forall|x: int, y: int|
            0 <= x < m.spec_buckets().len() && 0 <= y < m.spec_buckets()[x].len()
                ==> m@.contains_key((#[trigger] m.spec_buckets()[x][y]).0@) && m@[m.spec_buckets(
            )[x][y].0@] == m.spec_buckets()[x][y].1,
{
    let bs = m.spec_buckets();
    let n = m.spec_buckets_count();
    assert forall|x: int, y: int|
        0 <= x < bs.len() && 0 <= y < bs[x].len() implies m@.contains_key(
        (#[trigger] bs[x][y]).0@,
    ) && m@[bs[x][y].0@] == bs[x][y].1 by {
        let k = bs[x][y].0@;
        assert(spec_bucket_index(k, n) == x);
        assert forall|j: int| 0 <= j < y implies (#[trigger] bs[x][j]).0@ != k by {
            assert(bs[x][j].0@ != bs[x][y].0@);
        }
        lemma_find_first_match(bs[x], y, k);
    };
}

} // verus!
