use disrecord::cache::SoundCache;

#[test]
fn miss_on_an_empty_cache() {
    let mut c = SoundCache::new(10);
    assert_eq!(c.get(1, 0), None);
    assert_eq!(c.len(), 0);
}

#[test]
fn stored_bytes_are_handed_out() {
    let mut c = SoundCache::new(10);
    c.insert(1, vec![1, 2, 3], 0);
    c.insert(2, vec![4], 0);
    assert_eq!(c.get(1, 1), Some(vec![1, 2, 3]));
    assert_eq!(c.get(2, 1), Some(vec![4]));
    assert_eq!(c.get(3, 1), None);
    assert_eq!(c.len(), 2);
}

#[test]
fn storing_again_replaces_the_bytes() {
    let mut c = SoundCache::new(10);
    c.insert(1, vec![1, 2, 3], 0);
    c.insert(1, vec![9], 1);
    assert_eq!(c.get(1, 1), Some(vec![9]));
    assert_eq!(c.len(), 1);
}

#[test]
fn entry_is_present_after_half_the_time_to_live_and_absent_after_twice() {
    let d = 100;
    let t = 1_000;
    let mut c = SoundCache::new(d);
    c.insert(1, vec![1], t);
    c.evict(t + d / 2);
    assert_eq!(c.len(), 1);
    c.evict(t + 2 * d);
    assert_eq!(c.len(), 0);
    assert_eq!(c.get(1, t + 2 * d), None);
}

#[test]
fn entry_leaves_exactly_when_its_age_reaches_the_time_to_live() {
    let mut c = SoundCache::new(100);
    c.insert(1, vec![1], 1_000);
    c.evict(1_099);
    assert_eq!(c.len(), 1);
    c.evict(1_100);
    assert_eq!(c.len(), 0);
}

#[test]
fn a_hit_counts_as_an_access() {
    let mut c = SoundCache::new(100);
    c.insert(1, vec![1], 1_000);
    assert_eq!(c.get(1, 1_090), Some(vec![1]));
    c.evict(1_150);
    assert_eq!(c.len(), 1);
    c.evict(1_190);
    assert_eq!(c.len(), 0);
}

#[test]
fn eviction_keeps_the_live_entries() {
    let mut c = SoundCache::new(100);
    c.insert(1, vec![1], 1_000);
    c.insert(2, vec![2], 1_050);
    c.insert(3, vec![3], 1_010);
    c.evict(1_105);
    assert_eq!(c.get(1, 1_105), None);
    assert_eq!(c.get(2, 1_105), Some(vec![2]));
    assert_eq!(c.get(3, 1_105), Some(vec![3]));
}

#[test]
fn zero_time_to_live_keeps_nothing() {
    let mut c = SoundCache::new(0);
    c.insert(1, vec![1], 5);
    c.evict(5);
    assert_eq!(c.len(), 0);
}

#[test]
fn remove_drops_the_entry() {
    let mut c = SoundCache::new(100);
    c.insert(1, vec![1], 0);
    c.insert(2, vec![2], 0);
    c.remove(1);
    c.remove(5);
    assert_eq!(c.get(1, 0), None);
    assert_eq!(c.get(2, 0), Some(vec![2]));
}
