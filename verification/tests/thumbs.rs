use kichi::thumbs::{ThumbTextures, TEXTURE_CAP_BYTES, TEXTURE_CAP_ENTRIES};

const SEC: u64 = 1000;

/// A cache with a 2 s grace period and room for 1000 textures, counting the
/// bytes the caller gives for each texture.
fn cache(cap_bytes: usize) -> ThumbTextures<u32> {
    ThumbTextures::with_limits(cap_bytes, 1000, 2 * SEC)
}

#[test]
fn keeps_everything_under_cap() {
    let t0 = 5_000;
    let mut c = cache(100);
    for (i, id) in ["a", "b", "c"].iter().enumerate() {
        c.insert((*id).into(), i as u32, 10, t0);
    }
    assert_eq!(c.evict(t0 + 60 * SEC), 0);
    assert_eq!(c.len(), 3);
    assert_eq!(c.bytes(), 30);
}

#[test]
fn evicts_oldest_first_when_over_cap() {
    let t0 = 5_000;
    let mut c = cache(25);
    c.insert("a".into(), 1, 10, t0);
    c.insert("b".into(), 2, 10, t0 + SEC);
    c.insert("c".into(), 3, 10, t0 + 2 * SEC);
    let freed = c.evict(t0 + 12 * SEC);
    assert_eq!(freed, 10);
    assert_eq!(c.len(), 2);
    assert_eq!(c.bytes(), 20);
    assert!(c.get("a").is_none());
    assert!(c.get("b").is_some() && c.get("c").is_some());
}

#[test]
fn evicts_exactly_to_cap_when_far_over() {
    let t0 = 5_000;
    let mut c = cache(20);
    for (i, id) in ["a", "b", "c", "d"].iter().enumerate() {
        c.insert((*id).into(), i as u32, 10, t0 + (i as u64) * SEC);
    }
    let freed = c.evict(t0 + 12 * SEC);
    assert_eq!(freed, 20);
    assert_eq!(c.bytes(), 20);
    assert!(c.get("a").is_none() && c.get("b").is_none());
    assert!(c.get("c").is_some() && c.get("d").is_some());
}

#[test]
fn soft_cap_keeps_entries_within_grace() {
    let t0 = 5_000;
    let mut c = cache(10);
    c.insert("a".into(), 1, 10, t0);
    c.insert("b".into(), 2, 10, t0 + 100);
    assert_eq!(c.evict(t0 + SEC), 0);
    assert_eq!(c.len(), 2);
    assert_eq!(c.bytes(), 20);
}

#[test]
fn mark_used_gives_grace_to_recently_visible() {
    let t0 = 5_000;
    let mut c = cache(20);
    c.insert("a".into(), 1, 10, t0);
    c.insert("b".into(), 2, 10, t0);
    c.mark_used("a", t0 + 5 * SEC);
    c.insert("c".into(), 3, 10, t0 + 5 * SEC);
    let freed = c.evict(t0 + 5 * SEC);
    assert_eq!(freed, 10);
    assert!(c.get("b").is_none());
    assert!(c.get("a").is_some() && c.get("c").is_some());
}

#[test]
fn reinsert_same_id_replaces_without_double_counting() {
    let t0 = 5_000;
    let mut c = cache(10);
    c.insert("a".into(), 1, 10, t0);
    c.insert("a".into(), 2, 10, t0);
    assert_eq!(c.len(), 1);
    assert_eq!(c.bytes(), 10);
    assert_eq!(c.get("a"), Some(&2));
}

#[test]
fn evicts_by_entry_cap_even_when_bytes_are_small() {
    let t0 = 5_000;
    let mut c = ThumbTextures::with_limits(1_000_000, 2, 2 * SEC);
    c.insert("a".into(), 1, 10, t0);
    c.insert("b".into(), 2, 10, t0 + SEC);
    c.insert("c".into(), 3, 10, t0 + 2 * SEC);
    c.evict(t0 + 12 * SEC);
    assert_eq!(c.len(), 2);
    assert!(c.get("a").is_none());
    assert!(c.get("b").is_some() && c.get("c").is_some());
}

#[test]
fn mark_used_ignores_unknown_id() {
    let t0 = 5_000;
    let mut c = cache(10);
    c.mark_used("none", t0);
    assert_eq!(c.len(), 0);
}

#[test]
fn default_limits() {
    let mut c: ThumbTextures<u8> = ThumbTextures::new();
    assert_eq!(TEXTURE_CAP_BYTES, 64 * 1024 * 1024);
    assert_eq!(TEXTURE_CAP_ENTRIES, 512);
    for i in 0..(TEXTURE_CAP_ENTRIES + 3) {
        c.insert(i.to_string(), 0, 1, i as u64);
    }
    // Everything is past its grace period ten seconds later: back to the cap.
    c.evict(TEXTURE_CAP_ENTRIES as u64 + 10 * SEC);
    assert_eq!(c.len(), TEXTURE_CAP_ENTRIES);
    assert!(!c.contains("0") && !c.contains("2") && c.contains("3"));
}

#[test]
fn use_time_after_now_counts_as_fresh() {
    let mut c = cache(0);
    c.insert("a".into(), 1, 10, 10 * SEC);
    // The clock reads earlier than the use time: idle time counts as zero.
    assert_eq!(c.evict(SEC), 0);
    let mut z = ThumbTextures::with_limits(0, 0, 0);
    z.insert("a".into(), 1u32, 10, 10 * SEC);
    // With no grace period even such an entry may go.
    assert_eq!(z.evict(SEC), 10);
}
