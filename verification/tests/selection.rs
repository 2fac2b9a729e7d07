use std::collections::BTreeMap;

use kichi::jobs::{DlJob, DlStatus, UlJob, UlStatus};
use kichi::selection::{
    finished_downloads, finished_uploads, removal_ops, retryable_downloads, retryable_uploads, BulkOp,
    CheckState, Click, JobSelection,
};

fn sorted(v: &[u64]) -> Vec<u64> {
    let mut v = v.to_vec();
    v.sort();
    v
}

#[test]
fn clicks_select_like_a_file_manager() {
    let visible = [9u64, 7, 5, 3, 1];
    let mut s = JobSelection::new();
    s.click(&visible, Click::Replace(7), false);
    assert_eq!(s.ids, vec![7]);
    s.click(&visible, Click::Range(3), false);
    assert_eq!(sorted(&s.ids), vec![3, 5, 7]);
    assert_eq!(s.anchor, Some(3));
    s.click(&visible, Click::Toggle(5), false);
    assert_eq!(sorted(&s.ids), vec![3, 7]);
    s.click(&visible, Click::Toggle(9), false);
    assert_eq!(sorted(&s.ids), vec![3, 7, 9]);
    // shift with ctrl adds the run to what was selected
    s.click(&visible, Click::Range(1), true);
    assert_eq!(sorted(&s.ids), vec![1, 3, 5, 7, 9]);
    // shift without an anchor selects only the job
    let mut t = JobSelection::new();
    t.click(&visible, Click::Range(5), false);
    assert_eq!(t.ids, vec![5]);
    // an anchor no longer shown counts from the top
    t.anchor = Some(42);
    t.click(&visible, Click::Range(5), false);
    assert_eq!(sorted(&t.ids), vec![5, 7, 9]);
    t.clear();
    assert!(t.ids.is_empty() && t.anchor.is_none());
}

#[test]
fn select_all_box() {
    let visible = [1u64, 2, 3];
    let mut s = JobSelection::new();
    assert_eq!(s.master_state(&visible), CheckState::Unchecked);
    s.click(&visible, Click::Replace(2), false);
    assert_eq!(s.master_state(&visible), CheckState::Partial);
    s.master_click(&visible);
    assert_eq!(s.master_state(&visible), CheckState::Checked);
    s.master_click(&visible);
    assert!(s.ids.is_empty());
    s.click(&[1, 2, 3, 4], Click::Replace(4), false);
    s.keep_visible(&visible);
    assert!(s.ids.is_empty());
    assert_eq!(s.master_state(&[]), CheckState::Unchecked);
}

#[test]
fn bulk_actions() {
    let mut jobs: BTreeMap<u64, DlJob> = BTreeMap::new();
    let mut a = DlJob::queued("fa".into(), "a".into(), "/d".into());
    a.status = DlStatus::Failed("x".into());
    let mut b = DlJob::queued(String::new(), "b".into(), "/d".into());
    b.status = DlStatus::Failed("x".into());
    let c = DlJob::queued("fc".into(), "c".into(), "/d".into());
    let mut d = DlJob::queued("fd".into(), "d".into(), "/d".into());
    d.status = DlStatus::Done;
    let mut e = DlJob::child("fe".into(), "e".into(), "/d".into(), 4);
    e.status = DlStatus::Done;
    jobs.insert(1, a);
    jobs.insert(2, b);
    jobs.insert(3, c);
    jobs.insert(4, d);
    jobs.insert(5, e);
    assert_eq!(retryable_downloads(&jobs, &[1, 2, 3, 9]), vec![1]);
    assert_eq!(
        removal_ops(&jobs, &[3, 1]),
        vec![BulkOp::Cancel(3), BulkOp::Remove(1)]
    );
    assert_eq!(finished_downloads(&jobs), vec![4]);

    let mut uls: BTreeMap<u64, UlJob> = BTreeMap::new();
    let mut u1 = UlJob::queued("/x".into(), "x".into(), None, vec![]);
    u1.status = UlStatus::Failed("e".into());
    let mut u2 = UlJob::queued("/y".into(), "y".into(), None, vec![]);
    u2.status = UlStatus::Done;
    uls.insert(1, u1);
    uls.insert(2, u2);
    assert_eq!(retryable_uploads(&uls, &[2, 1]), vec![1]);
    assert_eq!(finished_uploads(&uls), vec![2]);
}
