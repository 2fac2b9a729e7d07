use std::collections::BTreeMap;

use kichi::browse::{
    clip_targets, make_clipboard, paste_into, selected_ids, visible_rows, ClipKind, Paste, SortBy,
};
use kichi::dircache::{
    drop_ids, hide_moved, merge_listing, retain_hidden, DirCache, DirOpen, DIR_CACHE_CAP, DIR_TTL_MS,
};
use kichi::transfer::{InUse, Slots};
use kichi::jobs::{
    dl_status_text, ul_status_text, DlFilter, DlJob, DlNode, DlStatus, Tone, UlFilter, UlJob, UlStatus,
};
use kichi::msg::FolderItem;
use kichi::pages::{PagedList, Search};
use kichi::reports::{
    dl_cancelled, dl_failed, dl_finished, dl_progress, folder_scan_failed, folder_scanned,
    ul_cancelled, ul_failed, ul_files, ul_finished, ul_progress, Scan,
};
use kichi::settings::{
    DownloadChildRecord, DownloadRecord, DownloadRecordStatus, UploadRecord, UploadRecordStatus,
};
use kichi::table::{
    dl_rows, enqueue_download_folder, enqueue_download_item, enqueue_upload_item,
    has_active_downloads, has_active_uploads, last_job_id, recompute_folder, remove_download_job,
    remove_upload_job, restore_download_jobs, restore_upload_jobs, retry_folder, retry_upload_job,
    snapshot_children, take_record, visible_dl_ids, visible_nodes, visible_ul_ids, DlRow,
};
use kichi::types::{File, FileList};

fn drive_file(id: &str) -> File {
    File { id: id.into(), name: format!("{id}.txt"), ..Default::default() }
}

fn ids(fs: &[File]) -> Vec<String> {
    fs.iter().map(|f| f.id.clone()).collect()
}

#[test]
fn dircache_first_page_then_append_dedups() {
    let mut c = DirCache::new();
    let root: Option<String> = None;
    assert!(c.apply(root.clone(), 1, false, vec![drive_file("a"), drive_file("b")], Some("t".into()), 10));
    assert!(c.apply(root.clone(), 1, true, vec![drive_file("b"), drive_file("c")], None, 20));
    let e = &c.entries[0].1;
    assert_eq!(ids(&e.files), vec!["a", "b", "c"]);
    assert_eq!(e.next_token, None);
    assert_eq!(e.fetched_at, 20);
}

#[test]
fn dircache_drops_older_answer() {
    let mut c = DirCache::new();
    let d = Some("d".to_string());
    assert!(c.apply(d.clone(), 5, false, vec![drive_file("new")], None, 10));
    assert!(!c.apply(d.clone(), 3, false, vec![drive_file("old")], None, 11));
    assert_eq!(ids(&c.entries[0].1.files), vec!["new"]);
    assert_eq!(c.entries[0].1.req, 5);
}

#[test]
fn dircache_answer_settles_inflight() {
    let mut c = DirCache::new();
    let d = Some("d".to_string());
    c.register(d.clone(), 7);
    assert!(c.is_inflight(&d));
    assert_eq!(c.open(&d, 0), DirOpen::Waiting);
    assert!(c.apply(d.clone(), 6, false, vec![], None, 1));
    assert!(c.is_inflight(&d));
    assert!(c.apply(d.clone(), 7, false, vec![], None, 2));
    assert!(!c.is_inflight(&d));
}

#[test]
fn dircache_open_fresh_stale_and_missing() {
    let mut c = DirCache::new();
    let d = Some("d".to_string());
    assert_eq!(c.open(&d, 0), DirOpen::Fetch);
    c.apply(d.clone(), 1, false, vec![drive_file("x")], None, 1_000);
    assert_eq!(c.open(&d, 1_000 + DIR_TTL_MS), DirOpen::Cached { revalidate: false });
    assert_eq!(c.entries[0].1.last_used, 1_000 + DIR_TTL_MS);
    assert_eq!(c.open(&d, 1_001 + DIR_TTL_MS), DirOpen::Cached { revalidate: true });
    c.register(d.clone(), 2);
    assert_eq!(c.open(&d, 1_001 + DIR_TTL_MS), DirOpen::Cached { revalidate: false });
    c.forget(&d);
    assert_eq!(c.open(&d, 0), DirOpen::Waiting);
}

#[test]
fn dircache_evicts_least_recent_but_keeps_current() {
    let mut c = DirCache::new();
    for (i, name) in ["a", "b", "c", "d"].iter().enumerate() {
        c.apply(Some(name.to_string()), 1, false, vec![], None, i as u64);
    }
    // "a" is the oldest but is shown; "b" and "c" leave.
    c.evict(2, &Some("a".to_string()));
    let left: Vec<String> = c.entries.iter().map(|e| e.0.clone().unwrap()).collect();
    assert_eq!(left, vec!["a", "d"]);
    // under the cap nothing changes
    c.evict(DIR_CACHE_CAP, &None);
    assert_eq!(c.entries.len(), 2);
}

#[test]
fn hidden_ids_released_when_listing_lacks_them() {
    let d = Some("d".to_string());
    let mut hidden = vec![
        ("gone".to_string(), d.clone()),
        ("still".to_string(), d.clone()),
        ("elsewhere".to_string(), Some("e".to_string())),
    ];
    retain_hidden(&mut hidden, &d, &[drive_file("still")]);
    let left: Vec<&str> = hidden.iter().map(|h| h.0.as_str()).collect();
    assert_eq!(left, vec!["still", "elsewhere"]);
}

fn child(name: &str, is_dir: bool, depth: u32, status: DownloadRecordStatus) -> DownloadChildRecord {
    DownloadChildRecord {
        file_id: format!("id-{name}"),
        name: name.into(),
        dir: "/dl".into(),
        total: 10,
        done: 10,
        status,
        at: 0,
        is_dir,
        depth,
    }
}

fn record(name: &str, status: DownloadRecordStatus, is_folder: bool, children: Vec<DownloadChildRecord>) -> DownloadRecord {
    DownloadRecord {
        file_id: format!("id-{name}"),
        name: name.into(),
        dir: "/dl".into(),
        total: 30,
        done: 20,
        status,
        at: 5,
        timestamp: format!("ts-{name}"),
        is_folder,
        children,
    }
}

#[test]
fn restore_numbers_oldest_first_and_skips_cancelled() {
    // newest first
    let history = vec![
        record("new", DownloadRecordStatus::Done, false, vec![]),
        record("gone", DownloadRecordStatus::Cancelled, false, vec![]),
        record(
            "folder",
            DownloadRecordStatus::Failed("1 个文件失败".into()),
            true,
            vec![
                child("sub", true, 1, DownloadRecordStatus::Done),
                child("a", false, 2, DownloadRecordStatus::Done),
                child("b", false, 1, DownloadRecordStatus::Cancelled),
            ],
        ),
        record("old", DownloadRecordStatus::Failed("x".into()), false, vec![]),
    ];
    let jobs = restore_download_jobs(history);
    assert_eq!(jobs.keys().copied().collect::<Vec<_>>(), vec![1, 2, 3, 4, 5]);
    assert_eq!(jobs[&1].name, "old");
    assert_eq!(jobs[&1].status, DlStatus::Failed("x".into()));
    assert_eq!(jobs[&1].at, Some(5));
    let f = &jobs[&2];
    assert_eq!(f.folder_id.as_deref(), Some("id-folder"));
    assert_eq!(f.record_id, "ts-folder");
    assert_eq!(f.nodes.len(), 3);
    assert_eq!(f.nodes[0].rid, None);
    assert_eq!((f.nodes[0].files_done, f.nodes[0].files_total), (1, 1));
    assert_eq!(f.nodes[1].rid, Some(3));
    assert_eq!(f.nodes[2].rid, Some(4));
    assert_eq!((f.files_done, f.files_total), (1, 2));
    assert_eq!(jobs[&3].parent, Some(2));
    assert_eq!(jobs[&3].status, DlStatus::Done);
    assert_eq!(jobs[&4].status, DlStatus::Failed("已取消".into()));
    assert_eq!(jobs[&5].name, "new");
    assert_eq!(jobs[&5].at, Some(5));
}

fn ul_record(name: &str, status: UploadRecordStatus) -> UploadRecord {
    UploadRecord {
        local_path: format!("/home/{name}"),
        name: name.into(),
        parent: Some("p".into()),
        dest_stack: vec![(None, "我的云盘".into())],
        total: 3,
        done: 3,
        status,
        is_dir: false,
        at: 0,
        timestamp: format!("t-{name}"),
    }
}

#[test]
fn restore_uploads_and_last_id() {
    let ul = restore_upload_jobs(vec![
        ul_record("b", UploadRecordStatus::Done),
        ul_record("a", UploadRecordStatus::Failed("e".into())),
    ]);
    assert_eq!(ul[&1].name, "a");
    assert_eq!(ul[&1].status, UlStatus::Failed("e".into()));
    assert_eq!(ul[&1].at, None);
    assert_eq!(ul[&2].name, "b");
    let dl = restore_download_jobs(vec![record("x", DownloadRecordStatus::Done, false, vec![])]);
    assert_eq!(last_job_id(&dl, &ul), 2);
    assert_eq!(last_job_id(&BTreeMap::new(), &BTreeMap::new()), 0);
}

fn job(status: DlStatus) -> DlJob {
    let mut j = DlJob::queued("f".into(), "n".into(), "/dl".into());
    j.status = status;
    j
}

#[test]
fn visible_ids_newest_first_top_level_only() {
    let mut jobs = BTreeMap::new();
    jobs.insert(1, job(DlStatus::Done));
    jobs.insert(2, job(DlStatus::Running));
    let mut c = job(DlStatus::Running);
    c.parent = Some(1);
    jobs.insert(3, c);
    jobs.insert(4, job(DlStatus::Failed("e".into())));
    assert_eq!(visible_dl_ids(&jobs, DlFilter::All), vec![4, 2, 1]);
    assert_eq!(visible_dl_ids(&jobs, DlFilter::Active), vec![2]);
    assert_eq!(visible_dl_ids(&jobs, DlFilter::Done), vec![1]);
    assert_eq!(visible_dl_ids(&jobs, DlFilter::Failed), vec![4]);
    assert!(has_active_downloads(&jobs));
    jobs.remove(&2);
    jobs.remove(&3);
    assert!(!has_active_downloads(&jobs));
}

fn node(is_dir: bool, depth: u32, expanded: bool, rid: Option<u64>) -> DlNode {
    DlNode { is_dir, name: "n".into(), depth, rid, expanded, files_done: 0, files_total: 0, done: false }
}

#[test]
fn collapsed_directory_hides_its_subtree() {
    let nodes = vec![
        node(true, 1, false, None),  // 0 collapsed
        node(false, 2, false, Some(1)), // 1 hidden
        node(true, 2, true, None),   // 2 hidden
        node(false, 3, false, Some(2)), // 3 hidden
        node(false, 1, false, Some(3)), // 4 shown
        node(true, 1, true, None),   // 5 shown
        node(false, 2, false, Some(4)), // 6 shown
    ];
    assert_eq!(visible_nodes(&nodes), vec![0, 4, 5, 6]);
}

#[test]
fn rows_expand_only_open_folders() {
    let mut jobs = BTreeMap::new();
    let mut f = DlJob::folder("fid".into(), "F".into(), "/dl".into());
    f.expanded = true;
    f.nodes = vec![node(true, 1, false, None), node(false, 2, false, Some(9))];
    jobs.insert(1, f);
    jobs.insert(2, job(DlStatus::Done));
    let rows = dl_rows(&jobs, DlFilter::All);
    assert_eq!(rows, vec![DlRow::Job(2), DlRow::Tree(1, vec![0])]);
}

fn folder_with_kids(statuses: &[DlStatus]) -> BTreeMap<u64, DlJob> {
    let mut jobs = BTreeMap::new();
    let mut f = DlJob::folder("fid".into(), "F".into(), "/dl".into());
    f.total = 0;
    let mut nodes = vec![node(true, 1, true, None)];
    for (i, s) in statuses.iter().enumerate() {
        let id = 2 + i as u64;
        let mut c = DlJob::child(format!("c{i}"), format!("c{i}"), "/dl/F".into(), 1);
        c.status = s.clone();
        c.total = 10;
        c.done = if *s == DlStatus::Done { 10 } else { 4 };
        jobs.insert(id, c);
        nodes.push(node(false, 2, false, Some(id)));
    }
    f.nodes = nodes;
    jobs.insert(1, f);
    jobs
}

#[test]
fn recompute_rolls_folder_up() {
    let mut jobs = folder_with_kids(&[DlStatus::Done, DlStatus::Running]);
    assert_eq!(recompute_folder(&mut jobs, 1), None);
    let f = &jobs[&1];
    assert_eq!((f.total, f.done), (20, 14));
    assert_eq!(f.status, DlStatus::Running);
    assert_eq!((f.files_done, f.files_total), (1, 2));
    assert_eq!((f.nodes[0].files_done, f.nodes[0].files_total), (1, 2));
    assert!(f.nodes[1].done);
    // all done: the folder asks for its record once
    let mut jobs = folder_with_kids(&[DlStatus::Done, DlStatus::Done]);
    assert!(matches!(recompute_folder(&mut jobs, 1), Some(DownloadRecordStatus::Done)));
    jobs.get_mut(&1).unwrap().record_id = "r".into();
    assert!(recompute_folder(&mut jobs, 1).is_none());
    // a single-file job is left alone
    let before = jobs[&2].status.clone();
    assert!(recompute_folder(&mut jobs, 2).is_none());
    assert_eq!(jobs[&2].status, before);
}

#[test]
fn record_snapshot_of_folder() {
    let mut jobs = folder_with_kids(&[DlStatus::Done, DlStatus::Failed("e".into())]);
    let kids = snapshot_children(&jobs, 1);
    assert_eq!(kids.len(), 3);
    assert!(kids[0].is_dir);
    assert_eq!(kids[1].file_id, "c0");
    assert!(matches!(kids[2].status, DownloadRecordStatus::Failed(_)));
    let rec = take_record(&mut jobs, 1, DownloadRecordStatus::Done, "ts".into(), 77).unwrap();
    assert!(rec.is_folder);
    assert_eq!(rec.children.len(), 3);
    assert_eq!(jobs[&1].record_id, "ts");
    assert_eq!(jobs[&1].at, Some(77));
    assert!(take_record(&mut jobs, 99, DownloadRecordStatus::Done, "x".into(), 1).is_none());
}

#[test]
fn removing_folder_takes_its_files_and_cancels_active() {
    let mut jobs = folder_with_kids(&[DlStatus::Done, DlStatus::Running]);
    jobs.get_mut(&1).unwrap().record_id = "rec".into();
    let r = remove_download_job(&mut jobs, 1);
    assert_eq!(r.cancel, vec![3]);
    assert_eq!(r.removed, vec![2, 3, 1]);
    assert_eq!(r.forget.unwrap().0, "rec");
    assert!(jobs.is_empty());
}

#[test]
fn removing_file_of_folder_updates_tree() {
    let mut jobs = folder_with_kids(&[DlStatus::Done, DlStatus::Failed("e".into())]);
    let r = remove_download_job(&mut jobs, 3);
    assert_eq!(r.removed, vec![3]);
    assert!(r.cancel.is_empty());
    assert_eq!(jobs[&1].nodes.len(), 2);
    assert_eq!(jobs[&1].status, DlStatus::Done);
    assert!(matches!(r.folder_write, Some((1, DownloadRecordStatus::Done))));
}

#[test]
fn removing_active_single_file_only_cancels() {
    let mut jobs = BTreeMap::new();
    jobs.insert(5, job(DlStatus::Queued));
    let r = remove_download_job(&mut jobs, 5);
    assert_eq!(r.cancel, vec![5]);
    assert!(jobs.contains_key(&5));
    jobs.insert(6, job(DlStatus::Done));
    let r = remove_download_job(&mut jobs, 6);
    assert_eq!(r.removed, vec![6]);
    assert!(r.forget.is_some());
    assert!(!jobs.contains_key(&6));
}

#[test]
fn retry_folder_requeues_only_failed_files() {
    let mut jobs = folder_with_kids(&[DlStatus::Done, DlStatus::Failed("e".into())]);
    jobs.get_mut(&1).unwrap().record_id = "rec".into();
    let mut last = 3;
    let r = retry_folder(&mut jobs, 1, &mut last);
    assert_eq!(last, 4);
    assert_eq!(r.starts.len(), 1);
    assert_eq!(r.starts[0].0, 4);
    assert_eq!(r.starts[0].1, "c1");
    assert_eq!(r.removed, vec![3]);
    assert!(!jobs.contains_key(&3));
    assert_eq!(jobs[&4].parent, Some(1));
    assert_eq!(jobs[&4].status, DlStatus::Queued);
    assert_eq!(jobs[&1].nodes[2].rid, Some(4));
    assert_eq!(jobs[&1].record_id, "");
    assert!(jobs[&1].expanded);
    assert_eq!(jobs[&1].status, DlStatus::Queued);
    assert_eq!(r.forget.unwrap().0, "rec");
}

#[test]
fn retry_folder_without_files_rescans() {
    let mut jobs = BTreeMap::new();
    let mut f = DlJob::folder("fid".into(), "F".into(), "/dl".into());
    f.status = DlStatus::Failed("scan".into());
    jobs.insert(1, f);
    let mut last = 1;
    let r = retry_folder(&mut jobs, 1, &mut last);
    assert_eq!(last, 1);
    let (fid, name, dir) = r.rescan.unwrap();
    assert_eq!((fid.as_str(), name.as_str(), dir.as_str()), ("fid", "F", "/dl"));
    assert_eq!(jobs[&1].status, DlStatus::Queued);
    assert!(jobs[&1].expanded);
}

#[test]
fn enqueue_numbers_jobs_on() {
    let mut jobs = BTreeMap::new();
    let mut last = 10;
    let a = enqueue_download_item(&mut jobs, &mut last, "f".into(), "n".into(), "/d".into(), None);
    let b = enqueue_download_folder(&mut jobs, &mut last, "g".into(), "G".into(), "/d".into());
    assert_eq!((a, b, last), (11, 12, 12));
    assert!(jobs[&b].is_folder());
    let mut ul = BTreeMap::new();
    let stack = vec![(None, "我的云盘".to_string())];
    assert_eq!(enqueue_upload_item(&mut ul, &mut last, "/home/a.txt".into(), &None, &stack, false), Some(13));
    assert_eq!(ul[&13].name, "a.txt");
    assert_eq!(enqueue_upload_item(&mut ul, &mut last, "/home/..".into(), &None, &stack, false), None);
    assert_eq!(last, 13);
}

fn ul_job(status: UlStatus) -> UlJob {
    let mut j = UlJob::queued("/home/a".into(), "a".into(), Some("p".into()), vec![]);
    j.status = status;
    j
}

#[test]
fn upload_removal_and_retry() {
    let mut ul = BTreeMap::new();
    ul.insert(1, ul_job(UlStatus::Running));
    ul.insert(2, ul_job(UlStatus::Failed("e".into())));
    assert!(has_active_uploads(&ul));
    assert_eq!(visible_ul_ids(&ul, UlFilter::Failed), vec![2]);
    let r = remove_upload_job(&mut ul, 1);
    assert_eq!(r.cancel, Some(1));
    assert!(ul.contains_key(&1));
    let mut last = 2;
    let t = retry_upload_job(&mut ul, 2, &mut last).unwrap();
    assert_eq!(t.job, Some(3));
    assert!(!ul.contains_key(&2));
    assert_eq!(ul[&3].status, UlStatus::Queued);
    assert_eq!(ul[&3].parent.as_deref(), Some("p"));
    let r = remove_upload_job(&mut ul, 3);
    assert_eq!(r.cancel, Some(3));
    ul.get_mut(&3).unwrap().status = UlStatus::Done;
    let r = remove_upload_job(&mut ul, 3);
    assert!(r.removed && r.forget.is_some());
    assert!(!ul.contains_key(&3));
    assert!(ul.contains_key(&1));
}

#[test]
fn download_reports_update_jobs() {
    let mut jobs = folder_with_kids(&[DlStatus::Queued, DlStatus::Done]);
    assert_eq!(dl_progress(&mut jobs, 2, 10, 6), None);
    assert_eq!(jobs[&2].status, DlStatus::Running);
    assert_eq!(jobs[&2].done, 6);
    assert_eq!(jobs[&1].status, DlStatus::Running);
    // progress never goes back
    dl_progress(&mut jobs, 2, 0, 3);
    assert_eq!((jobs[&2].done, jobs[&2].total), (6, 10));
    let w = dl_finished(&mut jobs, 2, 10);
    assert!(matches!(w, Some((1, DownloadRecordStatus::Done))));
    assert_eq!(jobs[&1].status, DlStatus::Done);

    let mut jobs = BTreeMap::new();
    jobs.insert(7, job(DlStatus::Running));
    let w = dl_failed(&mut jobs, 7, "boom".into());
    assert!(matches!(w, Some((7, DownloadRecordStatus::Failed(ref s))) if s == "boom"));
    assert_eq!(jobs[&7].status, DlStatus::Failed("boom".into()));
    assert_eq!(dl_cancelled(&mut jobs, 7), None);
    assert!(jobs.is_empty());
    assert_eq!(dl_finished(&mut jobs, 7, 1), None);
}

#[test]
fn cancelled_file_leaves_folder_tree() {
    let mut jobs = folder_with_kids(&[DlStatus::Running, DlStatus::Done]);
    dl_cancelled(&mut jobs, 2);
    assert!(!jobs.contains_key(&2));
    assert_eq!(jobs[&1].nodes.len(), 2);
    assert_eq!(jobs[&1].status, DlStatus::Done);
}

fn item(name: &str, is_dir: bool, depth: u32) -> FolderItem {
    FolderItem { is_dir, name: name.into(), depth, file_id: format!("id-{name}"), dir: "/dl/F".into() }
}

#[test]
fn folder_scan_queues_files() {
    let mut jobs = BTreeMap::new();
    jobs.insert(1, DlJob::folder("fid".into(), "F".into(), "/dl".into()));
    let mut last = 1;
    let r = folder_scanned(
        &mut jobs,
        &mut last,
        1,
        vec![item("sub", true, 1), item("a", false, 2), item("b", false, 1)],
        99,
    );
    let Scan::Started(starts) = r else { panic!("expected started") };
    assert_eq!(starts.iter().map(|s| s.0).collect::<Vec<_>>(), vec![2, 3]);
    assert_eq!(starts[0].1, "id-a");
    assert_eq!(last, 3);
    let f = &jobs[&1];
    assert_eq!(f.status, DlStatus::Running);
    assert_eq!((f.total, f.files_total), (99, 2));
    assert_eq!((f.nodes[0].files_done, f.nodes[0].files_total), (0, 1));
    assert_eq!(f.nodes[2].rid, Some(3));
    assert_eq!(jobs[&2].parent, Some(1));

    let mut jobs = BTreeMap::new();
    jobs.insert(1, DlJob::folder("fid".into(), "F".into(), "/dl".into()));
    let mut last = 1;
    assert!(matches!(folder_scanned(&mut jobs, &mut last, 1, vec![item("sub", true, 1)], 0), Scan::Empty));
    assert_eq!(jobs[&1].status, DlStatus::Done);
    assert_eq!(jobs[&1].nodes.len(), 1);
    assert!(matches!(folder_scanned(&mut jobs, &mut last, 5, vec![], 0), Scan::Ignored));
    let w = folder_scan_failed(&mut jobs, 1, "no".into());
    assert!(matches!(w, Some((1, DownloadRecordStatus::Failed(_)))));
}

#[test]
fn upload_reports_update_jobs() {
    let mut ul = BTreeMap::new();
    ul.insert(1, ul_job(UlStatus::Queued));
    ul_progress(&mut ul, 1, 100, 40);
    assert_eq!(ul[&1].status, UlStatus::Running);
    assert_eq!((ul[&1].done, ul[&1].total), (40, 100));
    ul_files(&mut ul, 1, 2, 5, "x".into());
    assert_eq!((ul[&1].files_done, ul[&1].files_total), (2, 5));
    let rec = ul_finished(&mut ul, 1, "r1".into(), 9).unwrap();
    assert_eq!(rec.done, 100);
    assert_eq!(rec.timestamp, "r1");
    assert!(matches!(rec.status, UploadRecordStatus::Done));
    assert_eq!(ul[&1].record_id, "r1");
    let rec = ul_failed(&mut ul, 1, "bad".into(), "r2".into(), 10).unwrap();
    assert!(matches!(rec.status, UploadRecordStatus::Failed(ref s) if s == "bad"));
    ul_cancelled(&mut ul, 1);
    assert!(ul.is_empty());
    assert!(ul_finished(&mut ul, 1, "r".into(), 1).is_none());
}

fn listed(id: &str, name: &str, kind: &str, size: i64, modified: Option<&str>) -> File {
    File {
        id: id.into(),
        name: name.into(),
        kind: kind.into(),
        size,
        modified_time: modified.map(|s| s.to_string()),
        ..Default::default()
    }
}

#[test]
fn rows_split_filter_and_sort() {
    let files = vec![
        listed("1", "beta.txt", "drive#file", 30, Some("2024-02")),
        listed("2", "Alpha", "drive#folder", 0, None),
        listed("3", "alpha.txt", "drive#file", 10, Some("2024-01")),
        listed("4", "Gamma.TXT", "drive#file", 10, None),
        listed("5", "zeta", "drive#folder", 0, Some("2023")),
    ];
    let (folders, plain) = visible_rows(&files, false, "", &[], &None, SortBy::Name, false);
    assert_eq!(folders, vec![1, 4]);
    assert_eq!(plain, vec![2, 0, 3]);
    let (_, plain) = visible_rows(&files, false, "", &[], &None, SortBy::Size, true);
    // equal sizes keep folder order, also when descending
    assert_eq!(plain, vec![0, 2, 3]);
    let (_, plain) = visible_rows(&files, false, "", &[], &None, SortBy::Modified, false);
    assert_eq!(plain, vec![3, 2, 0]);
    let (folders, plain) = visible_rows(&files, false, "  TXT ", &[], &None, SortBy::Name, false);
    assert!(folders.is_empty());
    assert_eq!(plain, vec![2, 0, 3]);
    let hidden = vec![("3".to_string(), None)];
    let (_, plain) = visible_rows(&files, false, "", &hidden, &None, SortBy::Name, false);
    assert_eq!(plain, vec![0, 3]);
    // search results ignore the filter box and the hidden list
    let (_, plain) = visible_rows(&files, true, "zzz", &hidden, &None, SortBy::Name, false);
    assert_eq!(plain, vec![2, 0, 3]);
}

#[test]
fn clipboard_targets_and_labels() {
    let files = vec![listed("a", "A.txt", "drive#file", 1, None), listed("b", "B", "drive#folder", 0, None)];
    let sel = vec!["b".to_string(), "a".to_string()];
    assert_eq!(selected_ids(&files, &sel), vec!["a", "b"]);
    assert_eq!(clip_targets(&files, &sel, "a".into()), vec!["a", "b"]);
    assert_eq!(clip_targets(&files, &sel, "x".into()), vec!["x"]);
    assert_eq!(clip_targets(&files, &["a".to_string()], "a".into()), vec!["a"]);
    let c = make_clipboard(ClipKind::Cut, vec!["a".into()], None, &files).unwrap();
    assert_eq!(c.label, "A.txt");
    let c = make_clipboard(ClipKind::Copy, vec!["zz".into()], None, &files).unwrap();
    assert_eq!(c.label, "文件");
    let c = make_clipboard(ClipKind::Copy, vec!["a".into(), "b".into()], None, &files).unwrap();
    assert_eq!(c.label, "2 项");
    assert!(make_clipboard(ClipKind::Copy, vec![], None, &files).is_none());
}

#[test]
fn paste_decisions() {
    let files: Vec<File> = vec![];
    assert_eq!(paste_into(&None, &None), Paste::Empty);
    let cut = make_clipboard(ClipKind::Cut, vec!["d1".into()], Some("src".into()), &files);
    assert_eq!(paste_into(&cut, &Some("d1".into())), Paste::IntoItself);
    assert_eq!(paste_into(&cut, &Some("src".into())), Paste::SameFolder);
    assert_eq!(paste_into(&cut, &None), Paste::Move);
    let copy = make_clipboard(ClipKind::Copy, vec!["d1".into()], Some("src".into()), &files);
    assert_eq!(paste_into(&copy, &Some("src".into())), Paste::Copy);
}

#[test]
fn status_texts() {
    let mut j = DlJob::folder("f".into(), "F".into(), "/d".into());
    assert_eq!(dl_status_text(&j), (Tone::Muted, "扫描目录中…".to_string()));
    j.status = DlStatus::Failed("3 个文件失败".into());
    assert_eq!(dl_status_text(&j), (Tone::Bad, "3 个文件失败".to_string()));
    assert_eq!(dl_status_text(&job(DlStatus::Queued)), (Tone::Muted, "排队中".to_string()));
    assert_eq!(dl_status_text(&job(DlStatus::Done)).1, "已完成");
    assert_eq!(ul_status_text(&ul_job(UlStatus::Running)), (Tone::Active, "上传中".to_string()));
}

#[test]
fn listing_merge_and_drop() {
    let mut shown = vec![drive_file("a"), drive_file("b")];
    merge_listing(&mut shown, vec![drive_file("b"), drive_file("c")], true);
    assert_eq!(ids(&shown), vec!["a", "b", "c"]);
    drop_ids(&mut shown, &["b".to_string(), "zz".to_string()]);
    assert_eq!(ids(&shown), vec!["a", "c"]);
    merge_listing(&mut shown, vec![drive_file("x")], false);
    assert_eq!(ids(&shown), vec!["x"]);
}

#[test]
fn moved_files_hidden_in_source() {
    let src = Some("src".to_string());
    let mut hidden = vec![("a".to_string(), Some("old".to_string()))];
    hide_moved(&mut hidden, &["a".to_string(), "b".to_string()], &src);
    assert_eq!(hidden, vec![("a".to_string(), src.clone()), ("b".to_string(), src.clone())]);
    let mut c = DirCache::new();
    c.apply(src.clone(), 1, false, vec![drive_file("a"), drive_file("b"), drive_file("c")], None, 0);
    c.drop_files(&src, &["a".to_string(), "b".to_string()]);
    assert_eq!(ids(&c.entries[0].1.files), vec!["c"]);
    // a fresh listing without them releases them
    retain_hidden(&mut hidden, &src, &c.entries[0].1.files);
    assert!(hidden.is_empty());
}

#[test]
fn slots_limit_running_transfers() {
    let mut s = Slots::new(2);
    assert!(s.try_acquire());
    assert!(s.try_acquire());
    assert!(!s.try_acquire());
    s.set_limit(0);
    assert_eq!(s.limit, 1);
    s.release();
    assert!(!s.try_acquire());
    s.release();
    assert!(s.try_acquire());
    assert_eq!(s.active, 1);
}

#[test]
fn in_use_paths_marked_and_released() {
    let mut u = InUse::new();
    u.mark(&["/c/a".to_string(), "/c/a.part".to_string(), "/c/a".to_string()]);
    assert_eq!(u.paths.len(), 2);
    assert!(u.contains("/c/a.part"));
    u.release(&["/c/a".to_string()]);
    assert!(!u.contains("/c/a"));
    assert!(u.contains("/c/a.part"));
}

fn page(names: &[&str], next: Option<&str>) -> FileList {
    FileList { files: names.iter().map(|n| drive_file(n)).collect(), next_page_token: next.map(|s| s.to_string()) }
}

#[test]
fn paged_list_drops_late_pages() {
    let mut l = PagedList::new();
    let a = l.enter(0, 60_000).unwrap();
    assert_eq!((a.req_id, a.append), (1, false));
    assert!(l.answer(1, page(&["a", "b"], Some("n")), false, 100));
    assert!(l.enter(100 + 59_999, 60_000).is_none());
    let m = l.load_more().unwrap();
    assert_eq!((m.req_id, m.token.as_deref(), m.append), (2, Some("n"), true));
    // the old first-page answer comes late: dropped
    assert!(!l.answer(1, page(&["z"], None), false, 200));
    assert!(l.answer(2, page(&["b", "c"], None), true, 300));
    assert_eq!(ids(&l.items), vec!["a", "b", "c"]);
    assert!(l.load_more().is_none());
    l.selected = vec!["c".to_string(), "a".to_string()];
    assert_eq!(l.selected_ids(), vec!["a", "c"]);
    l.remove_ids(&["a".to_string()]);
    assert_eq!(ids(&l.items), vec!["b", "c"]);
    assert_eq!(l.selected, vec!["c".to_string()]);
    let r = l.refresh();
    assert_eq!(r.req_id, 3);
    assert!(l.selected.is_empty());
    l.clear();
    assert!(l.items.is_empty() && l.req == 0);
}

#[test]
fn search_keeps_only_current_results() {
    let mut s = Search::new();
    assert!(s.trigger("   ").is_none());
    assert!(!s.active);
    let a = s.trigger("  movie ").unwrap();
    assert_eq!((a.keyword.as_str(), a.req_id), ("movie", 1));
    assert!(s.load_more().is_none());
    assert!(s.answer(1, page(&["m1"], Some("t")), false));
    let b = s.trigger("song").unwrap();
    assert_eq!(b.req_id, 2);
    assert!(!s.answer(1, page(&["m2"], None), true));
    assert!(s.results.is_empty());
    assert!(s.answer(2, page(&["s1"], Some("t2")), false));
    let m = s.load_more().unwrap();
    assert_eq!((m.token.as_deref(), m.req_id, m.append), (Some("t2"), 2, true));
    assert!(s.load_more().is_none());
    assert!(s.answer(2, page(&["s1", "s2"], None), true));
    assert_eq!(ids(&s.results), vec!["s1", "s2"]);
    s.exit();
    assert!(!s.active && s.results.is_empty() && s.keyword.is_empty());
}
