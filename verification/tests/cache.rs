use kichi::cache::{blocked, evict_lru, preview_caps, purge, thumb_caps, CacheEntry, Caps, Sweep, Sweeper};

const SEC: u64 = 1_000_000_000;
const NOW: u64 = 10_000 * SEC;

fn caps(max_bytes: u64, max_entries: usize, min_age_secs: u64) -> Caps {
    Caps {
        max_bytes,
        max_entries,
        min_age: min_age_secs * SEC,
    }
}

/// An entry of `bytes` bytes last used `age_secs` seconds before `NOW`.
fn entry(path: &str, bytes: u64, age_secs: u64, is_dir: bool) -> CacheEntry {
    CacheEntry {
        path: path.into(),
        bytes,
        used: NOW - age_secs * SEC,
        is_dir,
    }
}

/// Runs a pass to its end; `fails` lists paths whose deletion does not work.
/// Returns the outcome and the paths deleted.
fn run(mut s: Sweeper, fails: &[&str]) -> (Sweep, Vec<String>) {
    let mut gone = Vec::new();
    while let Some(k) = s.next_removal() {
        let path = s.entry(k).path.clone();
        let ok = !fails.contains(&path.as_str());
        if ok {
            gone.push(path);
        }
        s.settle(ok);
    }
    (s.sweep(), gone)
}

#[test]
fn evicts_oldest_until_under_byte_cap() {
    let entries = vec![
        entry("/r/a", 10, 300, false),
        entry("/r/b", 10, 200, false),
        entry("/r/c", 10, 100, false),
    ];
    let (s, gone) = run(evict_lru(entries, &caps(25, 100, 0), Vec::new(), NOW), &[]);
    assert_eq!(gone, vec!["/r/a".to_string()]);
    assert_eq!(s.removed, 1);
    assert_eq!(s.freed, 10);
    assert_eq!(s.bytes, 20);
    assert_eq!(s.entries, 2);
}

#[test]
fn evicts_until_under_entry_cap() {
    let entries = vec![
        entry("/r/c", 1, 100, false),
        entry("/r/a", 1, 300, false),
        entry("/r/b", 1, 200, false),
    ];
    let (s, gone) = run(evict_lru(entries, &caps(1 << 20, 2, 0), Vec::new(), NOW), &[]);
    assert_eq!(gone, vec!["/r/a".to_string()]);
    assert_eq!(s.entries, 2);
    assert_eq!(s.removed, 1);
}

#[test]
fn dir_entry_uses_newest_child_mtime() {
    // The scan gives a directory entry the newest time in its subtree, so a
    // directory holding a file just used counts as fresh.
    let entries = vec![
        entry("/r/fileid", 10, 0, true),
        entry("/r/stale", 10, 1800, false),
    ];
    let (s, gone) = run(evict_lru(entries, &caps(10, 100, 0), Vec::new(), NOW), &[]);
    assert_eq!(gone, vec!["/r/stale".to_string()]);
    assert_eq!(s.removed, 1);
}

#[test]
fn fresh_entries_are_exempt() {
    let entries = vec![entry("/r/just-written", 100, 0, false)];
    let (s, gone) = run(evict_lru(entries, &caps(10, 0, 300), Vec::new(), NOW), &[]);
    assert!(gone.is_empty());
    assert_eq!(s.removed, 0);
    assert_eq!(s.entries, 1);
}

#[test]
fn in_use_path_and_its_parent_dir_are_exempt() {
    let in_use = vec!["/r/fileid/movie.zip".to_string()];
    let entries = vec![entry("/r/fileid", 100, 600, true)];
    let (s, gone) = run(evict_lru(entries, &caps(0, 0, 0), in_use, NOW), &[]);
    assert!(gone.is_empty());
    assert_eq!(s.removed, 0);

    let entries = vec![entry("/r/fileid", 100, 600, true)];
    let (s, gone) = run(evict_lru(entries, &caps(0, 0, 0), Vec::new(), NOW), &[]);
    assert_eq!(s.removed, 1);
    assert_eq!(gone, vec!["/r/fileid".to_string()]);
}

#[test]
fn purge_clears_all_but_in_use() {
    let in_use = vec!["/r/a".to_string()];
    let entries = vec![entry("/r/a", 5, 1, false), entry("/r/b", 5, 1, false)];
    let (s, gone) = run(purge(entries, in_use), &[]);
    assert_eq!(gone, vec!["/r/b".to_string()]);
    assert_eq!(s.removed, 1);
    assert_eq!(s.entries, 1);
    assert_eq!(s.freed, 5);
}

#[test]
fn missing_root_is_treated_as_empty() {
    // A cache directory that does not exist scans as no entries.
    let (s, gone) = run(evict_lru(Vec::new(), &preview_caps(), Vec::new(), NOW), &[]);
    assert!(gone.is_empty());
    assert_eq!(s.bytes, 0);
    assert_eq!(s.entries, 0);
    assert_eq!(s.removed, 0);
}

#[test]
fn failed_deletion_is_kept_and_the_pass_goes_on() {
    let entries = vec![
        entry("/r/a", 10, 300, false),
        entry("/r/b", 10, 200, false),
        entry("/r/c", 10, 100, false),
    ];
    let (s, gone) = run(evict_lru(entries, &caps(15, 100, 0), Vec::new(), NOW), &["/r/a"]);
    assert_eq!(gone, vec!["/r/b".to_string(), "/r/c".to_string()]);
    assert_eq!(s.bytes, 10);
    assert_eq!(s.freed, 20);
    assert_eq!(s.removed, 2);
    assert_eq!(s.entries, 1);
}

#[test]
fn ties_keep_scan_order() {
    let entries = vec![
        entry("/r/x", 10, 100, false),
        entry("/r/y", 10, 100, false),
        entry("/r/z", 10, 100, false),
    ];
    let (_s, gone) = run(evict_lru(entries, &caps(20, 100, 0), Vec::new(), NOW), &[]);
    assert_eq!(gone, vec!["/r/x".to_string()]);
}

#[test]
fn blocked_matches_paths_by_components() {
    let in_use = vec!["/r/d/f.bin".to_string()];
    assert!(blocked("/r/d/f.bin", false, &in_use));
    assert!(blocked("/r//d/./f.bin", false, &in_use));
    assert!(blocked("/r/d", true, &in_use));
    assert!(!blocked("/r/d", false, &in_use));
    assert!(!blocked("/r/dd", true, &in_use));
}

#[test]
fn default_caps() {
    let p = preview_caps();
    assert_eq!((p.max_bytes, p.max_entries, p.min_age), (512 << 20, 200, 300 * SEC));
    let t = thumb_caps();
    assert_eq!((t.max_bytes, t.max_entries, t.min_age), (128 << 20, 1000, 300 * SEC));
}
