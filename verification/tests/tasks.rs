use kichi::json::Json;
use kichi::tasks::{
    polls_due, PhaseFetch, TaskBuckets, TaskPaging, TasksRound, QUOTA_POLL_MS, TASKS_POLL_ACTIVE_MS,
    TASKS_POLL_IDLE_MS, TASK_PAGE_SIZE,
};

fn task(id: &str) -> Json {
    Json::Obj(vec![("id".to_string(), Json::Str(id.to_string()))])
}

fn nameless() -> Json {
    Json::Obj(vec![("name".to_string(), Json::Str("x".to_string()))])
}

fn ids(ts: &[Json]) -> Vec<String> {
    ts.iter()
        .map(|t| match t {
            Json::Obj(ms) => match &ms[0].1 {
                Json::Str(s) if ms[0].0 == "id" => s.clone(),
                _ => "-".to_string(),
            },
            _ => "?".to_string(),
        })
        .collect()
}

fn bucket<'a>(b: &'a TaskBuckets, phase: &str) -> Option<&'a Vec<Json>> {
    b.buckets.iter().find(|(p, _)| p == phase).map(|(_, v)| v)
}

#[test]
fn poll_intervals() {
    assert_eq!(TASK_PAGE_SIZE, 100);
    assert_eq!(TASKS_POLL_ACTIVE_MS, 3000);
    assert_eq!(TASKS_POLL_IDLE_MS, 60000);
    assert_eq!(QUOTA_POLL_MS, 60000);
    assert_eq!(polls_due(10_000, 0, 7_000, true), (false, true));
    assert_eq!(polls_due(10_000, 0, 7_001, true), (false, false));
    assert_eq!(polls_due(10_000, 0, 7_000, false), (false, false));
    assert_eq!(polls_due(60_000, 0, 0, false), (true, true));
    // a clock that went back is no time passed
    assert_eq!(polls_due(5, 100, 100, true), (false, false));
}

#[test]
fn phase_fetch_pages() {
    let mut f = PhaseFetch::new();
    assert!(f.wants_more(2));
    f.add_page(vec![task("a")], Some("t1".to_string()));
    assert!(f.wants_more(2));
    f.add_page(vec![task("b")], Some("t2".to_string()));
    assert!(!f.wants_more(2));
    assert_eq!(ids(&f.tasks), vec!["a", "b"]);
    assert_eq!(f.fetched, 2);
    let mut g = PhaseFetch::new();
    g.add_page(vec![task("a")], None);
    assert!(!g.wants_more(5));
    let mut h = PhaseFetch::new();
    h.fail();
    assert!(!h.wants_more(5));
}

#[test]
fn refresh_settles_phases() {
    let mut paging = TaskPaging::new();
    assert_eq!(paging.pages_wanted("PHASE_TYPE_RUNNING"), 1);
    let mut round = TasksRound::new();
    let mut running = PhaseFetch::new();
    running.add_page(vec![task("r1")], Some("n".to_string()));
    paging.settle_phase(&mut round, "PHASE_TYPE_RUNNING".to_string(), running);
    let done = PhaseFetch::new();
    paging.settle_phase(&mut round, "PHASE_TYPE_COMPLETE".to_string(), done);
    paging.finish(&round);
    assert!(paging.active);
    assert_eq!(round.buckets.len(), 2);
    assert_eq!(round.nexts[0], ("PHASE_TYPE_RUNNING".to_string(), Some("n".to_string())));
    assert_eq!(paging.pages, vec![("PHASE_TYPE_RUNNING".to_string(), 1)]);
    assert_eq!(paging.more_token("PHASE_TYPE_RUNNING"), Some("n".to_string()));
    assert_eq!(paging.more_token("PHASE_TYPE_COMPLETE"), None);

    // the user loads a second page; the next refresh keeps two pages
    paging.page_loaded("PHASE_TYPE_RUNNING".to_string(), None);
    assert_eq!(paging.pages_wanted("PHASE_TYPE_RUNNING"), 2);
    assert_eq!(paging.more_token("PHASE_TYPE_RUNNING"), None);
    paging.page_loaded("PHASE_TYPE_ERROR".to_string(), Some("e".to_string()));
    assert_eq!(paging.pages_wanted("PHASE_TYPE_ERROR"), 2);

    // a failed running phase keeps its paging, and the activity as it was
    let mut round2 = TasksRound::new();
    let mut failed = PhaseFetch::new();
    failed.fail();
    paging.settle_phase(&mut round2, "PHASE_TYPE_RUNNING".to_string(), failed);
    paging.finish(&round2);
    assert!(round2.unknown);
    assert!(round2.buckets.is_empty());
    assert!(paging.active);
    assert_eq!(paging.pages_wanted("PHASE_TYPE_RUNNING"), 2);

    // an empty running phase forgets its paging and stops the activity
    let mut round3 = TasksRound::new();
    paging.settle_phase(&mut round3, "PHASE_TYPE_RUNNING".to_string(), PhaseFetch::new());
    paging.finish(&round3);
    assert!(!paging.active);
    assert_eq!(paging.pages_wanted("PHASE_TYPE_RUNNING"), 1);
    assert_eq!(round3.buckets.len(), 1);
}

#[test]
fn interface_merges_refresh() {
    let mut b = TaskBuckets::new();
    b.loading = true;
    b.refreshing = true;
    b.merge_all(
        vec![
            ("A".to_string(), vec![task("1"), task("2")]),
            ("B".to_string(), vec![task("3")]),
        ],
        vec![("A".to_string(), Some("ta".to_string())), ("B".to_string(), None)],
    );
    assert!(!b.loading && !b.refreshing);
    assert_eq!(ids(bucket(&b, "A").unwrap()), vec!["1", "2"]);
    assert_eq!(b.next, vec![("A".to_string(), Some("ta".to_string())), ("B".to_string(), None)]);
    // B failed to refresh (absent), A came back empty
    b.merge_all(vec![("A".to_string(), vec![])], vec![("A".to_string(), None)]);
    assert!(bucket(&b, "A").is_none());
    assert_eq!(ids(bucket(&b, "B").unwrap()), vec!["3"]);
    assert_eq!(b.next[0], ("A".to_string(), None));
}

#[test]
fn interface_merges_more_without_repeats() {
    let mut b = TaskBuckets::new();
    b.merge_all(
        vec![("A".to_string(), vec![task("1"), task("2")])],
        vec![("A".to_string(), Some("ta".to_string()))],
    );
    assert!(b.load_more("A"));
    assert!(!b.load_more("A"));
    assert!(!b.load_more("B"));
    assert_eq!(b.loading_more, vec!["A".to_string()]);
    b.merge_more(
        "A".to_string(),
        vec![task("2"), task("3"), nameless(), task("3")],
        None,
    );
    assert!(b.loading_more.is_empty());
    assert_eq!(ids(bucket(&b, "A").unwrap()), vec!["1", "2", "3", "-", "3"]);
    assert!(!b.load_more("A"));
    b.merge_more("C".to_string(), vec![task("9")], Some("tc".to_string()));
    assert_eq!(ids(bucket(&b, "C").unwrap()), vec!["9"]);
    assert_eq!(b.buckets.last().unwrap().0, "C");
}

use kichi::tasks::{group_clear_ids, group_header, offline_dest_label, offline_request, task_row};

fn full_task(id: &str, name: &str, file_id: &str, size: &str) -> Json {
    Json::Obj(vec![
        ("id".to_string(), Json::Str(id.to_string())),
        ("name".to_string(), Json::Str(name.to_string())),
        ("file_id".to_string(), Json::Str(file_id.to_string())),
        ("file_size".to_string(), Json::Str(size.to_string())),
    ])
}

#[test]
fn task_rows_and_actions() {
    let done = task_row("PHASE_TYPE_COMPLETE", &full_task("t1", "movie.mkv", "f1", "2048"));
    assert_eq!(done.name, "movie.mkv");
    assert_eq!(done.size, 2048);
    assert!(done.can_download && done.can_delete && !done.can_retry);
    let failed = task_row("PHASE_TYPE_ERROR", &full_task("t2", "x", "", "0"));
    assert!(!failed.can_download && failed.can_delete && failed.can_retry);
    let bare = task_row("PHASE_TYPE_ERROR", &Json::Obj(vec![]));
    assert_eq!(bare.name, "未知任务");
    assert_eq!(bare.size, 0);
    assert!(!bare.can_delete && !bare.can_retry && !bare.can_download);
}

#[test]
fn clearing_a_group() {
    let ts = vec![task("a"), nameless(), task("b")];
    assert_eq!(group_clear_ids("PHASE_TYPE_COMPLETE", &ts), Some(vec!["a".to_string(), "b".to_string()]));
    assert_eq!(group_clear_ids("PHASE_TYPE_RUNNING", &ts), None);
    assert_eq!(group_clear_ids("PHASE_TYPE_ERROR", &[nameless()]), None);
    assert_eq!(group_header("PHASE_TYPE_COMPLETE", 3), ("已完成 (3)".to_string(), false));
    assert_eq!(group_header("PHASE_TYPE_RUNNING", 12), ("下载中 (12)".to_string(), true));
}

#[test]
fn offline_requests() {
    let r = offline_request("  magnet:?xt=abc ", "   ", &None);
    assert_eq!(r.url, "magnet:?xt=abc");
    assert_eq!(r.name, None);
    assert_eq!(r.parent, None);
    let dest = Some(("d1".to_string(), "Movies".to_string()));
    let r = offline_request("https://x/y", " film ", &dest);
    assert_eq!(r.name, Some("film".to_string()));
    assert_eq!(r.parent, Some("d1".to_string()));
    assert_eq!(offline_dest_label(&dest), "网盘目录 · Movies");
    assert_eq!(offline_dest_label(&None), "离线默认目录");
}
