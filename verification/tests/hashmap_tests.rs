use hashmap::fnv1a_hash;
use hashmap::HashMap;

#[test]
fn correct_item_count() {
    let mut hm = HashMap::new();
    for i in 0..100 {
        hm.set(&(&i.to_string()), i);
    }
    assert_eq!(hm.get_entries_count(), 100);
}

#[test]
fn item_not_found() {
    let hm = HashMap::new();
    let key = "test";
    assert_eq!(None, hm.get(key));
}

#[test]
fn item_found() {
    let mut hm = HashMap::new();
    hm.set("test", 5);
    let key = "test";
    assert_eq!(Some(5), hm.get(key));
}

#[test]
fn hash_reference_vectors() {
    // 64-bit FNV-1a of the empty string is the offset basis itself.
    assert_eq!(fnv1a_hash(""), 14695981039346656037u64);
    // Known-good 64-bit FNV-1a digest of "test".
    assert_eq!(fnv1a_hash("test"), 0xf9e6_e6ef_197c_2b25u64);
    assert_eq!(fnv1a_hash("a"), 0xaf63_dc4c_8601_ec8cu64);
}

#[test]
fn hash_is_deterministic() {
    for key in ["", "a", "test", "some longer key with spaces"] {
        let first = fnv1a_hash(key);
        for _ in 0..3 {
            assert_eq!(fnv1a_hash(key), first);
        }
    }
}

#[test]
fn round_trip_many_keys() {
    let mut hm = HashMap::new();
    for i in 0..50 {
        let key = format!("key-{}", i);
        hm.set(&key, i * 7 - 3);
    }
    for i in 0..50 {
        let key = format!("key-{}", i);
        assert_eq!(hm.get(&key), Some(i * 7 - 3));
    }
}

#[test]
fn overwrite_keeps_one_entry() {
    let mut hm = HashMap::new();
    hm.set("k", 1);
    hm.set("k", 2);
    assert_eq!(hm.get("k"), Some(2));
    assert_eq!(hm.get_entries_count(), 1);
    hm.set("k", -9);
    assert_eq!(hm.get("k"), Some(-9));
    assert_eq!(hm.get_entries_count(), 1);
}

#[test]
fn deletion_removes_exactly_one() {
    let mut hm = HashMap::new();
    hm.set("a", 1);
    hm.set("b", 2);
    assert_eq!(hm.get_entries_count(), 2);
    hm.delete("a");
    assert_eq!(hm.get("a"), None);
    assert_eq!(hm.get("b"), Some(2));
    assert_eq!(hm.get_entries_count(), 1);
    // deleting an absent key changes nothing
    hm.delete("a");
    assert_eq!(hm.get_entries_count(), 1);
    hm.delete("never inserted");
    assert_eq!(hm.get_entries_count(), 1);
    assert_eq!(hm.get("b"), Some(2));
}

fn bucket_length_sum(hm: &HashMap) -> u64 {
    let mut sum: u64 = 0;
    for i in 0..hm.get_buckets_count() {
        sum += hm.get_bucket(i).unwrap().len() as u64;
    }
    sum
}

#[test]
fn count_matches_independent_tracking() {
    let mut hm = HashMap::new();
    let mut model = std::collections::HashMap::new();
    for step in 0i32..200 {
        let key = format!("k{}", step % 37);
        if step % 5 == 3 {
            hm.delete(&key);
            model.remove(&key);
        } else {
            hm.set(&key, step);
            model.insert(key, step);
        }
        assert_eq!(hm.get_entries_count() as usize, model.len());
        assert_eq!(bucket_length_sum(&hm), model.len() as u64);
    }
    for (key, value) in &model {
        assert_eq!(hm.get(key), Some(*value));
    }
}

#[test]
fn bucket_count_never_below_floor() {
    let mut hm = HashMap::new();
    assert_eq!(hm.get_buckets_count(), 10);
    for i in 0..300 {
        hm.set(&i.to_string(), i);
        assert!(hm.get_buckets_count() >= 10);
    }
    for i in 0..300 {
        hm.delete(&i.to_string());
        assert!(hm.get_buckets_count() >= 10);
    }
    assert_eq!(hm.get_entries_count(), 0);
    assert!(hm.get_buckets_count() >= 10);
}

#[test]
fn entries_sit_in_their_hash_bucket() {
    let mut hm = HashMap::new();
    for i in 0..120 {
        hm.set(&format!("entry-{}", i), i);
        let n = hm.get_buckets_count();
        for b in 0..n {
            for (key, _) in hm.get_bucket(b).unwrap() {
                let expected = (fnv1a_hash(key) % n as u64) as usize;
                assert_eq!(expected, b);
            }
        }
    }
}

#[test]
fn stored_values_survive_resizes() {
    let mut hm = HashMap::new();
    for i in 0..120 {
        hm.set(&format!("entry-{}", i), i);
    }
    // far more than 1.5 entries per bucket at the start: the table grew
    assert!(hm.get_buckets_count() > 10);
    for i in 0..120 {
        assert_eq!(hm.get(&format!("entry-{}", i)), Some(i));
    }
}

#[test]
fn growth_follows_the_policy_exactly() {
    let mut hm = HashMap::new();
    // grow fires when entries / buckets > 3/2, to ceil(buckets * 7/5):
    // 10 -> 14 -> 20 -> 28 -> 40 -> 56 -> 79 over 100 distinct inserts
    let mut seen: Vec<usize> = vec![hm.get_buckets_count()];
    for i in 0..100 {
        hm.set(&format!("g{}", i), i);
        let n = hm.get_buckets_count();
        if *seen.last().unwrap() != n {
            seen.push(n);
        }
    }
    assert_eq!(seen, vec![10, 14, 20, 28, 40, 56, 79]);
}

#[test]
fn shrink_follows_the_policy_exactly() {
    let mut hm = HashMap::new();
    for i in 0..100 {
        hm.set(&format!("g{}", i), i);
    }
    assert_eq!(hm.get_buckets_count(), 79);
    // shrink fires when entries / buckets < 1/4 and buckets / 2 > 10,
    // to ceil(buckets * 5/7): 79 -> 57 -> 41 -> 30 -> 22 -> 16, then the
    // guard stops any further shrinking
    for i in 0..100 {
        hm.delete(&format!("g{}", i));
    }
    assert_eq!(hm.get_entries_count(), 0);
    assert_eq!(hm.get_buckets_count(), 16);
}

#[test]
fn bucket_index_out_of_range() {
    let hm = HashMap::new();
    let r = hm.get_bucket(hm.get_buckets_count());
    assert!(r.is_err());
    assert_eq!(r.unwrap_err(), "bucket index out of bounds");
}

#[test]
fn bucket_index_in_range() {
    let mut hm = HashMap::new();
    hm.set("test", 5);
    let n = hm.get_buckets_count();
    let target = (fnv1a_hash("test") % n as u64) as usize;
    let bucket = hm.get_bucket(target).unwrap();
    assert_eq!(bucket.len(), 1);
    assert_eq!(bucket[0].0, "test");
    assert_eq!(bucket[0].1, 5);
}

#[test]
fn empty_key_is_a_key() {
    let mut hm = HashMap::new();
    hm.set("", 42);
    assert_eq!(hm.get(""), Some(42));
    assert_eq!(hm.get_entries_count(), 1);
    hm.delete("");
    assert_eq!(hm.get(""), None);
    assert_eq!(hm.get_entries_count(), 0);
}

#[test]
fn non_ascii_keys_round_trip() {
    let mut hm = HashMap::new();
    hm.set("clé", 1);
    hm.set("κλειδί", 2);
    hm.set("鍵", 3);
    assert_eq!(hm.get("clé"), Some(1));
    assert_eq!(hm.get("κλειδί"), Some(2));
    assert_eq!(hm.get("鍵"), Some(3));
    assert_eq!(hm.get_entries_count(), 3);
}
