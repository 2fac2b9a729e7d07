//! The transfer page's job tables: download jobs and upload jobs by id.
//!
//! At start-up the tables are rebuilt from the history files (newest record
//! first); ids are handed out oldest record first from 1, so ids grow with
//! time and a new job's id is above every restored one.

use std::collections::BTreeMap;

use vstd::prelude::*;

use crate::jobs::{
    aggregate_children, capped, fresh, compute_dir_counts, count_files, counted_row, dl_filter_passes,
    dl_record_status, folder_status_matches, in_subtree, job_done, job_total, records,
    running_speed, subtree_end, sum_of, ul_filter_passes, ul_fresh, DlFilter, DlJob, DlNode, DlStatus,
    UlFilter, UlJob, UlStatus,
};
use crate::settings::{
    DownloadChildRecord, DownloadRecord, DownloadRecordStatus, UploadRecord, UploadRecordStatus,
};
use crate::format::{file_name_chars, path_file_name};
use crate::text::{chars_of, string_from_chars};
use crate::types::opt_view;
use vstd::std_specs::cmp::OrdSpec;

verus! {

broadcast use {vstd::std_specs::btree::group_btree_axioms, vstd::laws_cmp::group_laws_cmp};

/// `Some(at)` for a recorded time, `None` for the zero that marks "unknown".
pub open spec fn opt_at(at: u64) -> Option<u64> {
    if at != 0 {
        Some(at)
    } else {
        None
    }
}

/// Whether a job status stands for a recorded outcome (a cancelled file of a
/// folder shows as failed).
pub open spec fn status_from(s: DlStatus, r: DownloadRecordStatus) -> bool {
    match r {
        DownloadRecordStatus::Done => s is Done,
        DownloadRecordStatus::Failed(w) => s matches DlStatus::Failed(x) && x@ == w@,
        DownloadRecordStatus::Cancelled => s matches DlStatus::Failed(x) && x@ == "已取消"@,
    }
}

/// Number of file rows among a folder record's nodes.
pub open spec fn file_children(cs: Seq<DownloadChildRecord>) -> nat
    decreases cs.len(),
{
    if cs.len() == 0 {
        0
    } else {
        file_children(cs.drop_last()) + if !cs.last().is_dir {
            1nat
        } else {
            0nat
        }
    }
}

/// Number of finished file rows among a folder record's nodes.
pub open spec fn done_children(cs: Seq<DownloadChildRecord>) -> nat
    decreases cs.len(),
{
    if cs.len() == 0 {
        0
    } else {
        done_children(cs.drop_last()) + if !cs.last().is_dir && cs.last().status is Done {
            1nat
        } else {
            0nat
        }
    }
}

/// How many ids a history record takes: none when cancelled, one for a file,
/// and one more per file row for a folder.
pub open spec fn ids_taken(r: DownloadRecord) -> nat {
    if r.status is Cancelled {
        0
    } else if r.is_folder {
        1 + file_children(r.children@)
    } else {
        1
    }
}

/// Ids taken by the records from `i` on (the older ones: newest comes first).
pub open spec fn ids_from(h: Seq<DownloadRecord>, i: int) -> nat
    decreases h.len() - i,
{
    if i < 0 || i >= h.len() {
        0
    } else {
        ids_taken(h[i]) + ids_from(h, i + 1)
    }
}

/// A job at rest: no speed sample.
pub open spec fn idle(j: DlJob) -> bool {
    j.speed == 0 && j.last_done == 0 && j.last_at is None
}

/// The job restored from a single-file record.
pub open spec fn job_of_record(j: DlJob, r: DownloadRecord) -> bool {
    &&& j.file_id@ == r.file_id@
    &&& j.record_id@ == r.timestamp@
    &&& j.name@ == r.name@
    &&& j.dir@ == r.dir@
    &&& j.total == r.total
    &&& j.done == r.done
    &&& status_from(j.status, r.status)
    &&& idle(j)
    &&& j.at == opt_at(r.at)
    &&& j.folder_id is None
    &&& j.parent is None
    &&& j.nodes@.len() == 0
    &&& !j.expanded
    &&& j.files_done == 0
    &&& j.files_total == 0
}

/// The job restored from a file row of folder `folder`'s record.
pub open spec fn job_of_child(j: DlJob, c: DownloadChildRecord, folder: u64) -> bool {
    &&& j.file_id@ == c.file_id@
    &&& j.record_id@ == Seq::<char>::empty()
    &&& j.name@ == c.name@
    &&& j.dir@ == c.dir@
    &&& j.total == c.total
    &&& j.done == c.done
    &&& status_from(j.status, c.status)
    &&& idle(j)
    &&& j.at == opt_at(c.at)
    &&& j.folder_id is None
    &&& j.parent == Some(folder)
    &&& j.nodes@.len() == 0
    &&& !j.expanded
    &&& j.files_done == 0
    &&& j.files_total == 0
}

/// Number of file rows among the first `k` nodes of a record.
pub open spec fn files_before(cs: Seq<DownloadChildRecord>, k: int) -> nat {
    file_children(cs.take(k))
}

/// The tree row restored from a node of a folder record: directories shown
/// open, file rows pointing at job `rid` and marked done when they finished.
pub open spec fn node_of_child(n: DlNode, c: DownloadChildRecord, rid: Option<u64>) -> bool {
    &&& n.is_dir == c.is_dir
    &&& n.name@ == c.name@
    &&& n.depth == c.depth
    &&& n.rid == rid
    &&& n.expanded == c.is_dir
    &&& n.done == (!c.is_dir && c.status is Done)
    &&& !c.is_dir ==> n.files_done == 0 && n.files_total == 0
}

/// Every directory row holds the finished and total file counts of its subtree.
pub open spec fn counts_filled(ns: Seq<DlNode>) -> bool {
    forall|k: int|
        0 <= k < ns.len() && (#[trigger] ns[k]).is_dir ==> ns[k].files_done == count_files(
            ns,
            k + 1,
            subtree_end(ns, k),
            true,
        ) && ns[k].files_total == count_files(ns, k + 1, subtree_end(ns, k), false)
}

/// The folder job restored from a folder record, its file rows numbered from
/// `id + 1` in order.
pub open spec fn folder_of_record(j: DlJob, r: DownloadRecord, id: u64) -> bool {
    &&& j.file_id@ == r.file_id@
    &&& j.record_id@ == r.timestamp@
    &&& j.name@ == r.name@
    &&& j.dir@ == r.dir@
    &&& j.total == r.total
    &&& j.done == r.done
    &&& status_from(j.status, r.status)
    &&& idle(j)
    &&& j.at == opt_at(r.at)
    &&& j.folder_id matches Some(f) && f@ == r.file_id@
    &&& j.parent is None
    &&& !j.expanded
    &&& j.nodes@.len() == r.children@.len()
    &&& forall|k: int|
        0 <= k < r.children@.len() ==> node_of_child(
            #[trigger] j.nodes@[k],
            r.children@[k],
            if r.children@[k].is_dir {
                None
            } else {
                Some((id + 1 + files_before(r.children@, k)) as u64)
            },
        )
    &&& counts_filled(j.nodes@)
    &&& j.files_total == file_children(r.children@)
    &&& j.files_done == done_children(r.children@)
}

/// The first id of history record `i`: one above those of the older records.
pub open spec fn base_of(h: Seq<DownloadRecord>, i: int) -> u64 {
    (ids_from(h, i + 1) + 1) as u64
}

/// The jobs restored from history record `r`, whose ids start at `base`.
pub open spec fn restored_record(m: Map<u64, DlJob>, r: DownloadRecord, base: u64) -> bool {
    if r.status is Cancelled {
        true
    } else if r.is_folder {
        &&& folder_of_record(m[base], r, base)
        &&& forall|k: int|
            0 <= k < r.children@.len() && !(#[trigger] r.children@[k]).is_dir ==> job_of_child(
                m[(base + 1 + files_before(r.children@, k)) as u64],
                r.children@[k],
                base,
            )
    } else {
        job_of_record(m[base], r)
    }
}

proof fn lemma_file_children_take(cs: Seq<DownloadChildRecord>, k: int)
    requires
        0 <= k < cs.len(),
    ensures
        file_children(cs.take(k + 1)) == file_children(cs.take(k)) + if !cs[k].is_dir {
            1nat
        } else {
            0nat
        },
        done_children(cs.take(k + 1)) == done_children(cs.take(k)) + if !cs[k].is_dir
            && cs[k].status is Done {
            1nat
        } else {
            0nat
        },
{
    assert(cs.take(k + 1).drop_last() == cs.take(k));
}

proof fn lemma_file_children_le(cs: Seq<DownloadChildRecord>)
    ensures
        file_children(cs) <= cs.len(),
    decreases cs.len(),
{
    if cs.len() > 0 {
        lemma_file_children_le(cs.drop_last());
    }
}

/// The job status for a recorded outcome.
fn status_of(r: &DownloadRecordStatus) -> (s: DlStatus)
    ensures
        status_from(s, *r),
{
    match r {
        DownloadRecordStatus::Done => DlStatus::Done,
        DownloadRecordStatus::Cancelled => DlStatus::Failed("已取消".to_owned()),
        DownloadRecordStatus::Failed(w) => DlStatus::Failed(w.clone()),
    }
}

/// `Some(at)` unless `at` is zero.
fn at_of(at: u64) -> (r: Option<u64>)
    ensures
        r == opt_at(at),
{
    if at != 0 {
        Some(at)
    } else {
        None
    }
}

/// The job of a file row of folder `folder`'s record.
fn child_job(ch: &DownloadChildRecord, folder: u64) -> (j: DlJob)
    ensures
        job_of_child(j, *ch, folder),
{
    DlJob {
        file_id: ch.file_id.clone(),
        record_id: String::new(),
        name: ch.name.clone(),
        dir: ch.dir.clone(),
        total: ch.total,
        done: ch.done,
        status: status_of(&ch.status),
        speed: 0,
        last_done: 0,
        last_at: None,
        at: at_of(ch.at),
        folder_id: None,
        parent: Some(folder),
        nodes: Vec::new(),
        expanded: false,
        files_done: 0,
        files_total: 0,
    }
}

/// The tree row of a folder record's node; a file row points at job `rid`.
fn child_node(ch: &DownloadChildRecord, rid: Option<u64>) -> (n: DlNode)
    requires
        ch.is_dir == (rid is None),
    ensures
        node_of_child(n, *ch, rid),
        n.is_dir ==> n.files_done == 0 && n.files_total == 0,
{
    DlNode {
        is_dir: ch.is_dir,
        name: ch.name.clone(),
        depth: ch.depth,
        rid,
        expanded: ch.is_dir,
        files_done: 0,
        files_total: 0,
        done: !ch.is_dir && matches!(ch.status, DownloadRecordStatus::Done),
    }
}

#[verifier::spinoff_prover]
#[verifier::rlimit(30)]
/// Adds the jobs of a folder record's file rows, numbered from `first + 1`
/// in order. Returns the last id used.
fn restore_child_jobs(cs: &Vec<DownloadChildRecord>, first: u64, jobs: &mut BTreeMap<u64, DlJob>) -> (last: u64)
    requires
        first + file_children(cs@) <= u64::MAX,
        forall|id: u64| old(jobs)@.contains_key(id) ==> id < first,
    ensures
        table_ok(old(jobs)@) ==> table_ok(final(jobs)@),
        last == first + file_children(cs@),
        forall|id: u64|
            final(jobs)@.contains_key(id) <==> (old(jobs)@.contains_key(id) || (first < id <= last)),
        forall|id: u64| old(jobs)@.contains_key(id) ==> final(jobs)@[id] == old(jobs)@[id],
        forall|q: int|
            0 <= q < cs@.len() && !(#[trigger] cs@[q]).is_dir ==> job_of_child(
                final(jobs)@[(first + 1 + files_before(cs@, q)) as u64],
                cs@[q],
                first,
            ),
{
    let mut next: u64 = first;
    let mut k: usize = 0;
    while k < cs.len()
        invariant
            0 <= k <= cs@.len(),
            first + file_children(cs@) <= u64::MAX,
            next == first + files_before(cs@, k as int),
            forall|id: u64|
                jobs@.contains_key(id) <==> (old(jobs)@.contains_key(id) || (first < id <= next)),
            forall|id: u64| old(jobs)@.contains_key(id) ==> jobs@[id] == old(jobs)@[id],
            forall|id: u64| old(jobs)@.contains_key(id) ==> id < first,
            table_ok(old(jobs)@) ==> table_ok(jobs@),
            forall|q: int|
                0 <= q < k && !(#[trigger] cs@[q]).is_dir ==> job_of_child(
                    jobs@[(first + 1 + files_before(cs@, q)) as u64],
                    cs@[q],
                    first,
                ),
        decreases cs@.len() - k,
    {
        proof {
            lemma_file_children_take(cs@, k as int);
            assert(cs@.take(cs@.len() as int) == cs@);
            lemma_files_before_mono(cs@, k as int + 1, cs@.len() as int);
        }
        if !cs[k].is_dir {
            next = next + 1;
            jobs.insert(next, child_job(&cs[k], first));
            proof {
                assert forall|q: int|
                    0 <= q < k && !(#[trigger] cs@[q]).is_dir implies job_of_child(
                    jobs@[(first + 1 + files_before(cs@, q)) as u64],
                    cs@[q],
                    first,
                ) by {
                    lemma_files_before_mono(cs@, q + 1, k as int);
                    lemma_file_children_take(cs@, q);
                }
            }
        }
        k += 1;
    }
    proof {
        assert(cs@.take(cs@.len() as int) == cs@);
    }
    next
}

/// The tree rows of a folder record's nodes, file rows pointing at the jobs
/// numbered from `first + 1`; counts not filled in yet.
fn restore_nodes(cs: &Vec<DownloadChildRecord>, first: u64) -> (nodes: Vec<DlNode>)
    requires
        first + file_children(cs@) <= u64::MAX,
    ensures
        nodes@.len() == cs@.len(),
        forall|q: int|
            0 <= q < cs@.len() ==> node_of_child(
                #[trigger] nodes@[q],
                cs@[q],
                if cs@[q].is_dir {
                    None
                } else {
                    Some((first + 1 + files_before(cs@, q)) as u64)
                },
            ),
{
    let mut nodes: Vec<DlNode> = Vec::new();
    let mut next: u64 = first;
    let mut k: usize = 0;
    while k < cs.len()
        invariant
            0 <= k <= cs@.len(),
            first + file_children(cs@) <= u64::MAX,
            next == first + files_before(cs@, k as int),
            nodes@.len() == k,
            forall|q: int|
                0 <= q < k ==> node_of_child(
                    #[trigger] nodes@[q],
                    cs@[q],
                    if cs@[q].is_dir {
                        None
                    } else {
                        Some((first + 1 + files_before(cs@, q)) as u64)
                    },
                ),
        decreases cs@.len() - k,
    {
        proof {
            lemma_file_children_take(cs@, k as int);
            assert(cs@.take(cs@.len() as int) == cs@);
            lemma_files_before_mono(cs@, k as int + 1, cs@.len() as int);
        }
        if cs[k].is_dir {
            nodes.push(child_node(&cs[k], None));
        } else {
            next = next + 1;
            nodes.push(child_node(&cs[k], Some(next)));
        }
        k += 1;
    }
    nodes
}

/// Restores a folder record: the folder job at `first`, its file jobs at the
/// following ids in order. Returns the last id used.
fn restore_folder(r: DownloadRecord, first: u64, jobs: &mut BTreeMap<u64, DlJob>) -> (last: u64)
    requires
        !(r.status is Cancelled),
        r.is_folder,
        first + file_children(r.children@) <= u64::MAX,
        forall|id: u64| old(jobs)@.contains_key(id) ==> id < first,
    ensures
        table_ok(old(jobs)@) ==> table_ok(final(jobs)@),
        last == first + file_children(r.children@),
        forall|id: u64|
            final(jobs)@.contains_key(id) <==> (old(jobs)@.contains_key(id) || (first <= id <= last)),
        forall|id: u64| old(jobs)@.contains_key(id) ==> final(jobs)@[id] == old(jobs)@[id],
        restored_record(final(jobs)@, r, first),
{
    let ghost cs = r.children@;
    let last = restore_child_jobs(&r.children, first, jobs);
    let mut nodes = restore_nodes(&r.children, first);
    let n_nodes = nodes.len();
    let ghost raw = nodes@;
    compute_dir_counts(&mut nodes);
    proof {
        assert(raw.len() == n_nodes);
        lemma_nodes_after_counts(raw, nodes@, cs, first);
    }
    let (files_total, files_done) = count_file_rows(&nodes);
    proof {
        lemma_rows_count(nodes@, cs, first);
    }
    let ghost before = jobs@;
    let job = folder_job(r, nodes, files_done, files_total, first);
    let ghost fj = job;
    jobs.insert(first, job);
    proof {
        lemma_children_kept(before, jobs@, cs, first, fj);
        assert forall|i: int| 0 <= i < fj.nodes@.len() implies (#[trigger] fj.nodes@[i]).rid != Some(first) by {
            lemma_files_before_mono(cs, i, cs.len() as int);
            assert(cs.take(cs.len() as int) == cs);
        }
    }
    last
}

/// The folder job of a folder record, with its tree and file counts.
fn folder_job(r: DownloadRecord, nodes: Vec<DlNode>, files_done: usize, files_total: usize, first: u64) -> (j: DlJob)
    requires
        !(r.status is Cancelled),
        nodes@.len() == r.children@.len(),
        forall|q: int|
            0 <= q < r.children@.len() ==> node_of_child(
                #[trigger] nodes@[q],
                r.children@[q],
                if r.children@[q].is_dir {
                    None
                } else {
                    Some((first + 1 + files_before(r.children@, q)) as u64)
                },
            ),
        counts_filled(nodes@),
        files_total == file_children(r.children@),
        files_done == done_children(r.children@),
    ensures
        folder_of_record(j, r, first),
{
    let folder_id = r.file_id.clone();
    DlJob {
        file_id: r.file_id,
        record_id: r.timestamp,
        name: r.name,
        dir: r.dir,
        total: r.total,
        done: r.done,
        status: status_of(&r.status),
        speed: 0,
        last_done: 0,
        last_at: None,
        at: at_of(r.at),
        folder_id: Some(folder_id),
        parent: None,
        nodes,
        expanded: false,
        files_done,
        files_total,
    }
}

/// Putting the folder job at `first` leaves its file jobs (above `first`) alone.
#[verifier::spinoff_prover]
proof fn lemma_children_kept(
    before: Map<u64, DlJob>,
    after: Map<u64, DlJob>,
    cs: Seq<DownloadChildRecord>,
    first: u64,
    fj: DlJob,
)
    requires
        after == before.insert(first, fj),
        first + file_children(cs) <= u64::MAX,
        forall|q: int|
            0 <= q < cs.len() && !(#[trigger] cs[q]).is_dir ==> job_of_child(
                before[(first + 1 + files_before(cs, q)) as u64],
                cs[q],
                first,
            ),
    ensures
        forall|q: int|
            0 <= q < cs.len() && !(#[trigger] cs[q]).is_dir ==> job_of_child(
                after[(first + 1 + files_before(cs, q)) as u64],
                cs[q],
                first,
            ),
{
    assert forall|q: int|
        0 <= q < cs.len() && !(#[trigger] cs[q]).is_dir implies job_of_child(
        after[(first + 1 + files_before(cs, q)) as u64],
        cs[q],
        first,
    ) by {
        lemma_file_children_take(cs, q);
        lemma_files_before_mono(cs, q + 1, cs.len() as int);
        assert(cs.take(cs.len() as int) == cs);
        let id = (first + 1 + files_before(cs, q)) as u64;
        assert(id != first);
    }
}

/// Filling in the counts keeps the rows restored from the record.
proof fn lemma_nodes_after_counts(raw: Seq<DlNode>, fin: Seq<DlNode>, cs: Seq<DownloadChildRecord>, first: u64)
    requires
        raw.len() == cs.len(),
        raw.len() <= usize::MAX,
        fin.len() == raw.len(),
        forall|q: int| 0 <= q < raw.len() ==> #[trigger] fin[q] == counted_row(raw, q),
        forall|q: int|
            0 <= q < cs.len() ==> node_of_child(
                #[trigger] raw[q],
                cs[q],
                if cs[q].is_dir {
                    None
                } else {
                    Some((first + 1 + files_before(cs, q)) as u64)
                },
            ),
    ensures
        counts_filled(fin),
        forall|q: int|
            0 <= q < cs.len() ==> node_of_child(
                #[trigger] fin[q],
                cs[q],
                if cs[q].is_dir {
                    None
                } else {
                    Some((first + 1 + files_before(cs, q)) as u64)
                },
            ),
{
    lemma_counts_filled(raw, fin);
    assert forall|q: int|
        0 <= q < cs.len() implies node_of_child(
        #[trigger] fin[q],
        cs[q],
        if cs[q].is_dir {
            None
        } else {
            Some((first + 1 + files_before(cs, q)) as u64)
        },
    ) by {
        assert(node_of_child(raw[q], cs[q], if cs[q].is_dir {
            None
        } else {
            Some((first + 1 + files_before(cs, q)) as u64)
        }));
    }
}

/// The job of a single-file record.
fn file_job(r: DownloadRecord) -> (j: DlJob)
    requires
        !(r.status is Cancelled),
    ensures
        job_of_record(j, r),
{
    DlJob {
        file_id: r.file_id,
        record_id: r.timestamp,
        name: r.name,
        dir: r.dir,
        total: r.total,
        done: r.done,
        status: status_of(&r.status),
        speed: 0,
        last_done: 0,
        last_at: None,
        at: at_of(r.at),
        folder_id: None,
        parent: None,
        nodes: Vec::new(),
        expanded: false,
        files_done: 0,
        files_total: 0,
    }
}

proof fn lemma_ids_from_mono(h: Seq<DownloadRecord>, a: int, b: int)
    requires
        0 <= a <= b <= h.len(),
    ensures
        ids_from(h, b) <= ids_from(h, a),
    decreases b - a,
{
    if a < b {
        lemma_ids_from_mono(h, a + 1, b);
    }
}

/// A record's jobs stay as they are while the ids it took are untouched.
proof fn lemma_record_stable(m1: Map<u64, DlJob>, m2: Map<u64, DlJob>, r: DownloadRecord, base: u64, hi: int)
    requires
        restored_record(m1, r, base),
        base + ids_taken(r) <= hi + 1,
        hi <= u64::MAX,
        forall|id: u64| base <= id <= hi ==> m2[id] == m1[id],
    ensures
        restored_record(m2, r, base),
{
    if !(r.status is Cancelled) && r.is_folder {
        let cs = r.children@;
        assert forall|k: int|
            0 <= k < cs.len() && !(#[trigger] cs[k]).is_dir implies job_of_child(
            m2[(base + 1 + files_before(cs, k)) as u64],
            cs[k],
            base,
        ) by {
            lemma_file_children_take(cs, k);
            lemma_files_before_mono(cs, k + 1, cs.len() as int);
            assert(cs.take(cs.len() as int) == cs);
            let id = (base + 1 + files_before(cs, k)) as u64;
            assert(base <= id <= hi);
        }
    }
}

/// Rebuilds the download jobs from the history (newest record first): ids go
/// to the records oldest first, from 1; a cancelled record is left out; a
/// folder record takes one id, then one per file row of its tree, in order.
pub fn restore_download_jobs(history: Vec<DownloadRecord>) -> (jobs: BTreeMap<u64, DlJob>)
    requires
        ids_from(history@, 0) <= u64::MAX,
    ensures
        table_ok(jobs@),
        forall|id: u64| jobs@.contains_key(id) <==> 1 <= id <= ids_from(history@, 0),
        forall|i: int|
            0 <= i < history@.len() ==> #[trigger] restored_record(
                jobs@,
                history@[i],
                base_of(history@, i),
            ),
{
    let ghost h = history@;
    let mut rest = history;
    let mut jobs: BTreeMap<u64, DlJob> = BTreeMap::new();
    let mut next: u64 = 0;
    while rest.len() > 0
        invariant
            rest@.len() <= h.len(),
            rest@ == h.take(rest@.len() as int),
            next == ids_from(h, rest@.len() as int),
            ids_from(h, 0) <= u64::MAX,
            forall|id: u64| jobs@.contains_key(id) <==> 1 <= id <= next,
            table_ok(jobs@),
            forall|i: int|
                rest@.len() <= i < h.len() ==> #[trigger] restored_record(jobs@, h[i], base_of(h, i)),
        decreases rest@.len(),
    {
        let ghost i = (rest@.len() - 1) as int;
        let r = rest.pop().unwrap();
        proof {
            assert(r == h[i]);
            assert(rest@ == h.take(i));
            lemma_ids_from_mono(h, 0, i);
        }
        let ghost before = jobs@;
        let ghost old_next = next;
        if matches!(r.status, DownloadRecordStatus::Cancelled) {
            proof {
                assert(next == ids_from(h, i));
            }
        } else if r.is_folder {
            let first = next + 1;
            next = restore_folder(r, first, &mut jobs);
        } else {
            next = next + 1;
            jobs.insert(next, file_job(r));
        }
        proof {
            assert(next == ids_from(h, i));
            assert forall|q: int|
                rest@.len() <= q < h.len() implies #[trigger] restored_record(jobs@, h[q], base_of(h, q)) by {
                if q > i {
                    lemma_ids_from_mono(h, i + 1, q);
                    lemma_record_stable(before, jobs@, h[q], base_of(h, q), old_next as int);
                }
            }
        }
    }
    jobs
}

/// Whether an upload status stands for a recorded outcome.
pub open spec fn ul_status_from(s: UlStatus, r: UploadRecordStatus) -> bool {
    match r {
        UploadRecordStatus::Done => s is Done,
        UploadRecordStatus::Failed(w) => s matches UlStatus::Failed(x) && x@ == w@,
    }
}

/// The upload job restored from a history record.
pub open spec fn ul_job_of_record(j: UlJob, r: UploadRecord) -> bool {
    &&& j.local_path@ == r.local_path@
    &&& j.name@ == r.name@
    &&& opt_view(j.parent) == opt_view(r.parent)
    &&& j.dest_stack@ == r.dest_stack@
    &&& j.total == r.total
    &&& j.done == r.done
    &&& ul_status_from(j.status, r.status)
    &&& j.speed == 0 && j.last_done == 0 && j.last_at is None
    &&& j.record_id@ == r.timestamp@
    &&& j.is_dir == r.is_dir
    &&& j.files_done == 0 && j.files_total == 0
    &&& j.current@ == Seq::<char>::empty()
    &&& j.at == opt_at(r.at)
}

fn ul_job(r: UploadRecord) -> (j: UlJob)
    ensures
        ul_job_of_record(j, r),
{
    let status = match r.status {
        UploadRecordStatus::Done => UlStatus::Done,
        UploadRecordStatus::Failed(w) => UlStatus::Failed(w),
    };
    UlJob {
        local_path: r.local_path,
        name: r.name,
        parent: r.parent,
        dest_stack: r.dest_stack,
        total: r.total,
        done: r.done,
        status,
        speed: 0,
        last_done: 0,
        last_at: None,
        record_id: r.timestamp,
        is_dir: r.is_dir,
        files_done: 0,
        files_total: 0,
        current: String::new(),
        at: at_of(r.at),
    }
}

/// Rebuilds the upload jobs from the history (newest record first): the
/// oldest record gets id 1, the newest the highest.
pub fn restore_upload_jobs(history: Vec<UploadRecord>) -> (jobs: BTreeMap<u64, UlJob>)
    requires
        history@.len() <= u64::MAX,
    ensures
        forall|id: u64| jobs@.contains_key(id) <==> 1 <= id <= history@.len(),
        forall|i: int|
            0 <= i < history@.len() ==> ul_job_of_record(
                jobs@[(history@.len() - i) as u64],
                #[trigger] history@[i],
            ),
{
    let ghost h = history@;
    let mut rest = history;
    let mut jobs: BTreeMap<u64, UlJob> = BTreeMap::new();
    let mut next: u64 = 0;
    while rest.len() > 0
        invariant
            rest@.len() <= h.len() <= u64::MAX,
            rest@ == h.take(rest@.len() as int),
            next == h.len() - rest@.len(),
            forall|id: u64| jobs@.contains_key(id) <==> 1 <= id <= next,
            forall|i: int|
                rest@.len() <= i < h.len() ==> ul_job_of_record(jobs@[(h.len() - i) as u64], #[trigger] h[i]),
        decreases rest@.len(),
    {
        let ghost i = (rest@.len() - 1) as int;
        let r = rest.pop().unwrap();
        proof {
            assert(r == h[i]);
            assert(rest@ == h.take(i));
        }
        next = next + 1;
        jobs.insert(next, ul_job(r));
    }
    jobs
}

/// The highest job id in either table (0 when both are empty): new jobs are
/// numbered above it.
pub fn last_job_id(dl: &BTreeMap<u64, DlJob>, ul: &BTreeMap<u64, UlJob>) -> (r: u64)
    ensures
        forall|k: u64| dl@.contains_key(k) || ul@.contains_key(k) ==> k <= r,
        r == 0 || dl@.contains_key(r) || ul@.contains_key(r),
{
    let mut r: u64 = 0;
    for kv in it: dl.iter()
        invariant
            it.seq().len() == dl@.dom().len(),
            forall|x: int| 0 <= x < it.seq().len() ==> dl@.contains_key(*(#[trigger] it.seq()[x]).0),
            forall|k: u64| dl@.contains_key(k) ==> it.seq().contains((&k, &dl@[k])),
            forall|x: int| 0 <= x < it.index() ==> *(#[trigger] it.seq()[x]).0 <= r,
            r == 0 || dl@.contains_key(r),
    {
        let (k, _) = kv;
        if *k > r {
            r = *k;
        }
    }
    let ghost r1 = r;
    for kv in it: ul.iter()
        invariant
            it.seq().len() == ul@.dom().len(),
            forall|x: int| 0 <= x < it.seq().len() ==> ul@.contains_key(*(#[trigger] it.seq()[x]).0),
            forall|k: u64| ul@.contains_key(k) ==> it.seq().contains((&k, &ul@[k])),
            forall|x: int| 0 <= x < it.index() ==> *(#[trigger] it.seq()[x]).0 <= r,
            forall|k: u64| dl@.contains_key(k) ==> k <= r,
            r == 0 || dl@.contains_key(r) || ul@.contains_key(r),
    {
        let (k, _) = kv;
        if *k > r {
            r = *k;
        }
    }
    r
}

/// Keys of a map walk, in walk order.
pub open spec fn walk_keys<V>(s: Seq<(&u64, &V)>) -> Seq<u64> {
    s.map_values(|kv: (&u64, &V)| *kv.0)
}

/// The top-level download jobs that `filter` lets through, newest (highest
/// id) first; files of a folder download are listed under their folder.
pub fn visible_dl_ids(jobs: &BTreeMap<u64, DlJob>, filter: DlFilter) -> (r: Vec<u64>)
    ensures
        forall|i: int, j: int| 0 <= i < j < r@.len() ==> r@[i] > r@[j],
        forall|k: u64|
            r@.contains(k) <==> (jobs@.contains_key(k) && jobs@[k].parent is None && dl_filter_passes(
                filter,
                jobs@[k].status,
            )),
        filter is Active ==> forall|k: u64|
            r@.contains(k) <==> (jobs@.contains_key(k) && jobs@[k].parent is None && (
            jobs@[k].status is Queued || jobs@[k].status is Running)),
{
    let mut asc: Vec<u64> = Vec::new();
    let ghost mut pos: Seq<int> = Seq::empty();
    for kv in it: jobs.iter()
        invariant
            vstd::std_specs::btree::increasing_seq(walk_keys(it.seq())),
            it.seq().len() == jobs@.dom().len(),
            forall|x: int|
                0 <= x < it.seq().len() ==> jobs@.contains_key(*(#[trigger] it.seq()[x]).0)
                    && jobs@[*it.seq()[x].0] == *it.seq()[x].1,
            forall|k: u64| jobs@.contains_key(k) ==> it.seq().contains((&k, &jobs@[k])),
            pos.len() == asc@.len(),
            forall|i: int|
                0 <= i < asc@.len() ==> 0 <= #[trigger] pos[i] < it.index() && asc@[i] == walk_keys(
                    it.seq(),
                )[pos[i]],
            forall|x: int|
                0 <= x < it.index() && (*it.seq()[x].1).parent is None && dl_filter_passes(
                    filter,
                    (*it.seq()[x].1).status,
                ) ==> asc@.contains(*(#[trigger] it.seq()[x]).0),
            forall|i: int, j: int| 0 <= i < j < asc@.len() ==> asc@[i] < asc@[j],
            forall|i: int|
                0 <= i < asc@.len() ==> jobs@.contains_key(#[trigger] asc@[i]) && jobs@[asc@[i]].parent is None
                    && dl_filter_passes(filter, jobs@[asc@[i]].status),
    {
        let (k, j) = kv;
        proof {
            let s = walk_keys(it.seq());
            assert(kv == it.seq()[it.index()]);
            assert forall|i: int| 0 <= i < asc@.len() implies asc@[i] < *k by {
                assert(s[pos[i]] == asc@[i]);
                assert(s[it.index()] == *k);
                assert(s[pos[i]].cmp_spec(&s[it.index()]) is Less);
            }
        }
        let ghost a0 = asc@;
        if j.parent.is_none() && filter.matches(j) {
            asc.push(*k);
            proof {
                pos = pos.push(it.index());
                assert(asc@[asc@.len() - 1] == *k);
                assert forall|q: u64| a0.contains(q) implies asc@.contains(q) by {
                    let w = choose|w: int| 0 <= w < a0.len() && a0[w] == q;
                    assert(asc@[w] == q);
                }
            }
        }
    }
    let mut r: Vec<u64> = Vec::new();
    let mut i: usize = asc.len();
    while i > 0
        invariant
            0 <= i <= asc@.len(),
            r@.len() == asc@.len() - i,
            forall|q: int| 0 <= q < r@.len() ==> #[trigger] r@[q] == asc@[asc@.len() - 1 - q],
            forall|a: int, b: int| 0 <= a < b < asc@.len() ==> asc@[a] < asc@[b],
        decreases i,
    {
        i = i - 1;
        r.push(asc[i]);
    }
    proof {
        assert forall|k: u64| r@.contains(k) <==> asc@.contains(k) by {
            if r@.contains(k) {
                let w = choose|w: int| 0 <= w < r@.len() && r@[w] == k;
                assert(asc@[asc@.len() - 1 - w] == k);
            }
            if asc@.contains(k) {
                let w = choose|w: int| 0 <= w < asc@.len() && asc@[w] == k;
                assert(r@[asc@.len() - 1 - w] == k);
            }
        }
    }
    r
}

/// The upload jobs that `filter` lets through, in id order.
pub fn visible_ul_ids(jobs: &BTreeMap<u64, UlJob>, filter: UlFilter) -> (r: Vec<u64>)
    ensures
        forall|i: int, j: int| 0 <= i < j < r@.len() ==> r@[i] < r@[j],
        forall|k: u64|
            r@.contains(k) <==> (jobs@.contains_key(k) && ul_filter_passes(filter, jobs@[k].status)),
        filter is Active ==> forall|k: u64|
            r@.contains(k) <==> (jobs@.contains_key(k) && (jobs@[k].status is Queued
                || jobs@[k].status is Running)),
{
    let mut asc: Vec<u64> = Vec::new();
    let ghost mut pos: Seq<int> = Seq::empty();
    for kv in it: jobs.iter()
        invariant
            vstd::std_specs::btree::increasing_seq(walk_keys(it.seq())),
            it.seq().len() == jobs@.dom().len(),
            forall|x: int|
                0 <= x < it.seq().len() ==> jobs@.contains_key(*(#[trigger] it.seq()[x]).0)
                    && jobs@[*it.seq()[x].0] == *it.seq()[x].1,
            forall|k: u64| jobs@.contains_key(k) ==> it.seq().contains((&k, &jobs@[k])),
            pos.len() == asc@.len(),
            forall|i: int|
                0 <= i < asc@.len() ==> 0 <= #[trigger] pos[i] < it.index() && asc@[i] == walk_keys(
                    it.seq(),
                )[pos[i]],
            forall|x: int|
                0 <= x < it.index() && ul_filter_passes(filter, (*it.seq()[x].1).status)
                    ==> asc@.contains(*(#[trigger] it.seq()[x]).0),
            forall|i: int, j: int| 0 <= i < j < asc@.len() ==> asc@[i] < asc@[j],
            forall|i: int|
                0 <= i < asc@.len() ==> jobs@.contains_key(#[trigger] asc@[i]) && ul_filter_passes(
                    filter,
                    jobs@[asc@[i]].status,
                ),
    {
        let (k, j) = kv;
        proof {
            let s = walk_keys(it.seq());
            assert(kv == it.seq()[it.index()]);
            assert forall|i: int| 0 <= i < asc@.len() implies asc@[i] < *k by {
                assert(s[pos[i]] == asc@[i]);
                assert(s[it.index()] == *k);
                assert(s[pos[i]].cmp_spec(&s[it.index()]) is Less);
            }
        }
        let ghost a0 = asc@;
        if filter.matches(j) {
            asc.push(*k);
            proof {
                pos = pos.push(it.index());
                assert(asc@[asc@.len() - 1] == *k);
                assert forall|q: u64| a0.contains(q) implies asc@.contains(q) by {
                    let w = choose|w: int| 0 <= w < a0.len() && a0[w] == q;
                    assert(asc@[w] == q);
                }
            }
        }
    }
    asc
}

/// Whether any download job is queued or running.
pub fn has_active_downloads(jobs: &BTreeMap<u64, DlJob>) -> (b: bool)
    ensures
        b == exists|k: u64| jobs@.contains_key(k) && (jobs@[k].status is Queued || jobs@[k].status is Running),
{
    for kv in it: jobs.iter()
        invariant
            it.seq().len() == jobs@.dom().len(),
            forall|x: int|
                0 <= x < it.seq().len() ==> jobs@.contains_key(*(#[trigger] it.seq()[x]).0)
                    && jobs@[*it.seq()[x].0] == *it.seq()[x].1,
            forall|k: u64| jobs@.contains_key(k) ==> it.seq().contains((&k, &jobs@[k])),
            forall|x: int|
                0 <= x < it.index() ==> !((*(#[trigger] it.seq()[x]).1).status is Queued || (
                *it.seq()[x].1).status is Running),
    {
        let (k, j) = kv;
        proof {
            assert(kv == it.seq()[it.index()]);
        }
        if matches!(j.status, DlStatus::Queued | DlStatus::Running) {
            return true;
        }
    }
    false
}

/// Whether any upload job is queued or running.
pub fn has_active_uploads(jobs: &BTreeMap<u64, UlJob>) -> (b: bool)
    ensures
        b == exists|k: u64| jobs@.contains_key(k) && (jobs@[k].status is Queued || jobs@[k].status is Running),
{
    for kv in it: jobs.iter()
        invariant
            it.seq().len() == jobs@.dom().len(),
            forall|x: int|
                0 <= x < it.seq().len() ==> jobs@.contains_key(*(#[trigger] it.seq()[x]).0)
                    && jobs@[*it.seq()[x].0] == *it.seq()[x].1,
            forall|k: u64| jobs@.contains_key(k) ==> it.seq().contains((&k, &jobs@[k])),
            forall|x: int|
                0 <= x < it.index() ==> !((*(#[trigger] it.seq()[x]).1).status is Queued || (
                *it.seq()[x].1).status is Running),
    {
        let (k, j) = kv;
        proof {
            assert(kv == it.seq()[it.index()]);
        }
        if matches!(j.status, UlStatus::Queued | UlStatus::Running) {
            return true;
        }
    }
    false
}

/// Whether tree row `j` is a collapsed directory.
pub open spec fn collapsed(ns: Seq<DlNode>, j: int) -> bool {
    ns[j].is_dir && !ns[j].expanded
}

/// Whether tree row `i` is hidden: it lies in the subtree of a collapsed
/// directory row.
pub open spec fn row_hidden(ns: Seq<DlNode>, i: int) -> bool {
    exists|j: int| 0 <= j < i && collapsed(ns, j) && #[trigger] in_subtree(ns, j, i)
}

/// Whether the rows after `j` and before `i` all lie below row `j`.
pub open spec fn window_open(ns: Seq<DlNode>, j: int, i: int) -> bool {
    forall|k: int| j < k < i ==> #[trigger] ns[k].depth > ns[j].depth
}

/// The tree rows to show: those not inside a collapsed directory, in order.
pub fn visible_nodes(nodes: &[DlNode]) -> (r: Vec<usize>)
    ensures
        forall|a: int, b: int| 0 <= a < b < r@.len() ==> r@[a] < r@[b],
        forall|i: usize| r@.contains(i) <==> (i < nodes@.len() && !row_hidden(nodes@, i as int)),
{
    let ghost ns = nodes@;
    let mut r: Vec<usize> = Vec::new();
    let mut skip: Option<u32> = None;
    let mut i: usize = 0;
    while i < nodes.len()
        invariant
            ns == nodes@,
            0 <= i <= ns.len(),
            forall|a: int, b: int| 0 <= a < b < r@.len() ==> r@[a] < r@[b],
            forall|a: int| 0 <= a < r@.len() ==> #[trigger] r@[a] < i,
            forall|x: usize| x < i ==> (r@.contains(x) <==> !row_hidden(ns, x as int)),
            skip is None ==> forall|j: int| 0 <= j < i && collapsed(ns, j) ==> !#[trigger] window_open(ns, j, i as int),
            skip matches Some(d) ==> exists|w: int|
                0 <= w < i && collapsed(ns, w) && #[trigger] window_open(ns, w, i as int) && ns[w].depth == d,
            skip matches Some(d) ==> forall|j: int|
                0 <= j < i && collapsed(ns, j) && #[trigger] window_open(ns, j, i as int) ==> ns[j].depth >= d,
        decreases ns.len() - i,
    {
        let depth = nodes[i].depth;
        let mut show = true;
        let ghost skip0 = skip;
        if let Some(d) = skip {
            if depth > d {
                show = false;
            } else {
                skip = None;
            }
        }
        proof {
            let ii = i as int;
            if show {
                assert forall|j: int| 0 <= j < ii && collapsed(ns, j) implies !in_subtree(ns, j, ii) by {
                    if in_subtree(ns, j, ii) {
                        assert(window_open(ns, j, ii));
                    }
                }
            } else {
                let d = skip0.unwrap();
                let w = choose|w: int| 0 <= w < ii && collapsed(ns, w) && #[trigger] window_open(ns, w, ii) && ns[w].depth == d;
                assert(in_subtree(ns, w, ii));
                assert(row_hidden(ns, ii));
                assert(window_open(ns, w, ii + 1));
                assert forall|j: int|
                    0 <= j < ii + 1 && collapsed(ns, j) && #[trigger] window_open(ns, j, ii + 1) implies ns[j].depth >= d by {
                    if j < ii {
                        assert(window_open(ns, j, ii));
                    }
                }
            }
            // Once row `i` shows, no collapsed directory above it still
            // covers the rows that follow.
            assert forall|j: int| 0 <= j < ii && collapsed(ns, j) && #[trigger] window_open(ns, j, ii + 1) implies !show by {
                assert(window_open(ns, j, ii));
                if show {
                    if skip0 is Some {
                        assert(ns[j].depth >= skip0.unwrap());
                    }
                }
            }
        }
        let ghost r0 = r@;
        if show {
            r.push(i);
            proof {
                assert forall|x: usize| r0.contains(x) implies r@.contains(x) by {
                    let w = choose|w: int| 0 <= w < r0.len() && r0[w] == x;
                    assert(r@[w] == x);
                }
                assert(r@[r@.len() - 1] == i);
            }
            if nodes[i].is_dir && !nodes[i].expanded {
                skip = Some(depth);
                proof {
                    assert(window_open(ns, i as int, i + 1));
                }
            }
        }
        proof {
            if !show {
                assert(r@ == r0);
            }
            assert forall|x: usize| x < i + 1 implies (r@.contains(x) <==> !row_hidden(ns, x as int)) by {
                if x < i {
                    if r@.contains(x) && !r0.contains(x) {
                        let w = choose|w: int| 0 <= w < r@.len() && r@[w] == x;
                        assert(w == r@.len() - 1);
                    }
                }
            }
        }
        i += 1;
    }
    r
}

/// A row of the download list: a job, or an expanded folder job with the
/// indices of its tree rows to show.
#[derive(Debug, Clone, PartialEq, Eq)]
pub enum DlRow {
    Job(u64),
    Tree(u64, Vec<usize>),
}

/// The job a row is for.
pub open spec fn row_job(r: DlRow) -> u64 {
    match r {
        DlRow::Job(id) => id,
        DlRow::Tree(id, _) => id,
    }
}

/// The rows of the download list: the top-level jobs `filter` lets through,
/// newest first; an expanded folder job comes with the rows of its tree that
/// are not inside a collapsed directory.
pub fn dl_rows(jobs: &BTreeMap<u64, DlJob>, filter: DlFilter) -> (rows: Vec<DlRow>)
    ensures
        forall|a: int, b: int| 0 <= a < b < rows@.len() ==> row_job(rows@[a]) > row_job(rows@[b]),
        forall|q: int|
            0 <= q < rows@.len() ==> jobs@.contains_key(row_job(#[trigger] rows@[q])) && jobs@[row_job(
                rows@[q],
            )].parent is None && dl_filter_passes(filter, jobs@[row_job(rows@[q])].status),
        forall|k: u64|
            #![trigger jobs@.contains_key(k)]
            jobs@.contains_key(k) && jobs@[k].parent is None && dl_filter_passes(filter, jobs@[k].status)
                ==> exists|q: int| 0 <= q < rows@.len() && row_job(#[trigger] rows@[q]) == k,
        forall|q: int|
            0 <= q < rows@.len() ==> match #[trigger] rows@[q] {
                DlRow::Job(id) => !(jobs@[id].folder_id is Some && jobs@[id].expanded),
                DlRow::Tree(id, vis) => {
                    &&& jobs@[id].folder_id is Some
                    &&& jobs@[id].expanded
                    &&& forall|a: int, b: int| 0 <= a < b < vis@.len() ==> vis@[a] < vis@[b]
                    &&& forall|i: usize|
                        vis@.contains(i) <==> (i < jobs@[id].nodes@.len() && !row_hidden(
                            jobs@[id].nodes@,
                            i as int,
                        ))
                },
            },
{
    let ids = visible_dl_ids(jobs, filter);
    let mut rows: Vec<DlRow> = Vec::new();
    let mut q: usize = 0;
    while q < ids.len()
        invariant
            0 <= q <= ids@.len(),
            rows@.len() == q,
            forall|a: int, b: int| 0 <= a < b < ids@.len() ==> ids@[a] > ids@[b],
            forall|k: u64|
                ids@.contains(k) <==> (jobs@.contains_key(k) && jobs@[k].parent is None && dl_filter_passes(
                    filter,
                    jobs@[k].status,
                )),
            forall|a: int| 0 <= a < q ==> row_job(#[trigger] rows@[a]) == ids@[a],
            forall|a: int|
                0 <= a < q ==> match #[trigger] rows@[a] {
                    DlRow::Job(id) => !(jobs@[id].folder_id is Some && jobs@[id].expanded),
                    DlRow::Tree(id, vis) => {
                        &&& jobs@[id].folder_id is Some
                        &&& jobs@[id].expanded
                        &&& forall|x: int, y: int| 0 <= x < y < vis@.len() ==> vis@[x] < vis@[y]
                        &&& forall|i: usize|
                            vis@.contains(i) <==> (i < jobs@[id].nodes@.len() && !row_hidden(
                                jobs@[id].nodes@,
                                i as int,
                            ))
                    },
                },
        decreases ids@.len() - q,
    {
        let id = ids[q];
        proof {
            assert(ids@.contains(id));
        }
        match jobs.get(&id) {
            Some(j) => {
                if j.is_folder() && j.expanded {
                    let vis = visible_nodes(j.nodes.as_slice());
                    rows.push(DlRow::Tree(id, vis));
                } else {
                    rows.push(DlRow::Job(id));
                }
            },
            None => {
                rows.push(DlRow::Job(id));
            },
        }
        q += 1;
    }
    proof {
        assert forall|q: int| 0 <= q < rows@.len() implies jobs@.contains_key(row_job(#[trigger] rows@[q]))
            && jobs@[row_job(rows@[q])].parent is None && dl_filter_passes(filter, jobs@[row_job(rows@[q])].status) by {
            assert(ids@.contains(ids@[q]));
        }
        assert forall|k: u64|
            #![trigger jobs@.contains_key(k)]
            jobs@.contains_key(k) && jobs@[k].parent is None && dl_filter_passes(filter, jobs@[k].status)
                implies exists|q: int| 0 <= q < rows@.len() && row_job(#[trigger] rows@[q]) == k by {
            assert(ids@.contains(k));
            let w = choose|w: int| 0 <= w < ids@.len() && ids@[w] == k;
            assert(row_job(rows@[w]) == k);
        }
    }
    rows
}

/// The jobs of a tree's file rows that are in the table, in row order.
pub open spec fn kid_jobs<'a>(m: &'a Map<u64, DlJob>, ns: Seq<DlNode>) -> Seq<&'a DlJob>
    decreases ns.len(),
{
    if ns.len() == 0 {
        Seq::empty()
    } else {
        let rest = kid_jobs(m, ns.drop_last());
        match ns.last().rid {
            Some(r) => if m.contains_key(r) {
                rest.push(&m[r])
            } else {
                rest
            },
            None => rest,
        }
    }
}

/// A tree row with its done mark taken from its job: done when the job is
/// in the table and finished.
pub open spec fn marked(m: Map<u64, DlJob>, n: DlNode) -> DlNode {
    match n.rid {
        Some(r) => DlNode { done: m.contains_key(r) && m[r].status is Done, ..n },
        None => n,
    }
}

/// The jobs of a tree's file rows.
fn collect_kids<'a>(jobs: &'a BTreeMap<u64, DlJob>, nodes: &Vec<DlNode>) -> (kids: Vec<&'a DlJob>)
    ensures
        kids@ == kid_jobs(&jobs@, nodes@),
{
    let mut kids: Vec<&DlJob> = Vec::new();
    let mut i: usize = 0;
    while i < nodes.len()
        invariant
            0 <= i <= nodes@.len(),
            kids@ == kid_jobs(&jobs@, nodes@.take(i as int)),
        decreases nodes@.len() - i,
    {
        proof {
            assert(nodes@.take(i + 1).drop_last() == nodes@.take(i as int));
        }
        if let Some(r) = nodes[i].rid {
            if let Some(j) = jobs.get(&r) {
                kids.push(j);
            }
        }
        i += 1;
    }
    assert(nodes@.take(nodes@.len() as int) == nodes@);
    kids
}

/// Marks each file row done when its job finished.
fn mark_done(nodes: &mut Vec<DlNode>, jobs: &BTreeMap<u64, DlJob>)
    ensures
        final(nodes)@.len() == old(nodes)@.len(),
        forall|i: int| 0 <= i < old(nodes)@.len() ==> #[trigger] final(nodes)@[i] == marked(jobs@, old(nodes)@[i]),
{
    let ghost orig = nodes@;
    let mut i: usize = 0;
    while i < nodes.len()
        invariant
            nodes@.len() == orig.len(),
            0 <= i <= orig.len(),
            forall|k: int| 0 <= k < i ==> #[trigger] nodes@[k] == marked(jobs@, orig[k]),
            forall|k: int| i <= k < orig.len() ==> #[trigger] nodes@[k] == orig[k],
        decreases orig.len() - i,
    {
        if let Some(r) = nodes[i].rid {
            let done = match jobs.get(&r) {
                Some(j) => matches!(j.status, DlStatus::Done),
                None => false,
            };
            let mut n = nodes.remove(i);
            n.done = done;
            nodes.insert(i, n);
        }
        i += 1;
    }
}

/// Whether a folder status is final.
pub open spec fn terminal(s: DlStatus) -> bool {
    s is Done || s is Failed
}

/// Folder job `f` after its roll-up with tree `tree` from the table `m`:
/// sizes, speed and status summed from the tree's file jobs (a size known
/// from the scan is kept), the tree's done marks and counts refreshed;
/// nothing else changes.
pub open spec fn rolled_up(f2: DlJob, f: DlJob, tree: Seq<DlNode>, m: Map<u64, DlJob>) -> bool {
    let kids = kid_jobs(&m, tree);
    let ns = f2.nodes@;
    &&& f2.total == if f.total == 0 {
        capped(sum_of(kids, |j: DlJob| job_total(j)))
    } else {
        f.total
    }
    &&& f2.done == capped(sum_of(kids, |j: DlJob| job_done(j)))
    &&& f2.speed == capped(sum_of(kids, |j: DlJob| running_speed(j)))
    &&& folder_status_matches(f2.status, kids)
    &&& ns.len() == tree.len()
    &&& forall|i: int|
        0 <= i < ns.len() ==> #[trigger] ns[i] == counted_row(tree.map_values(|n: DlNode| marked(m, n)), i)
    &&& f2.files_total == file_rows(ns)
    &&& f2.files_done == done_rows(ns)
    &&& f2.file_id == f.file_id
    &&& f2.record_id == f.record_id
    &&& f2.name == f.name
    &&& f2.dir == f.dir
    &&& f2.last_done == f.last_done
    &&& f2.last_at == f.last_at
    &&& f2.at == f.at
    &&& f2.folder_id == f.folder_id
    &&& f2.parent == f.parent
    &&& f2.expanded == f.expanded
}

/// Table `m1` is table `m0` after folder job `folder` was rolled up, and
/// `write` is the status due for its history record; a missing or
/// single-file job leaves the table as it is.
pub open spec fn folder_rolled(
    m0: Map<u64, DlJob>,
    m1: Map<u64, DlJob>,
    folder: u64,
    write: Option<DownloadRecordStatus>,
) -> bool {
    if m0.contains_key(folder) && m0[folder].folder_id is Some {
        &&& m1.dom() == m0.dom()
        &&& forall|k: u64| k != folder && m0.contains_key(k) ==> m1[k] == m0[k]
        &&& rolled_up(m1[folder], m0[folder], m0[folder].nodes@, m0)
        &&& write_due(write, m1[folder].status, m0[folder].record_id@)
    } else {
        m1 == m0 && write is None
    }
}

/// Rolls folder job `folder` up from its file jobs: total size (kept when the
/// scan already knew it), bytes done, speed of the running files, status
/// (a failure wins, then all done, then any running), done marks and the
/// per-directory counts of its tree. Returns the status to write to the
/// history when the folder just reached a final status and has no record yet.
/// The folder's rows point at other jobs, never at the folder itself.
pub fn recompute_folder(jobs: &mut BTreeMap<u64, DlJob>, folder: u64) -> (write: Option<DownloadRecordStatus>)
    requires
        old(jobs)@.contains_key(folder) ==> forall|i: int|
            0 <= i < old(jobs)@[folder].nodes@.len() ==> (#[trigger] old(jobs)@[folder].nodes@[i]).rid != Some(folder),
    ensures
        table_ok(old(jobs)@) ==> table_ok(final(jobs)@),
        folder_rolled(old(jobs)@, final(jobs)@, folder, write),
{
    let is_folder = match jobs.get(&folder) {
        Some(j) => j.is_folder(),
        None => false,
    };
    if !is_folder {
        return None;
    }
    let ghost m0 = jobs@;
    let mut f = jobs.remove(&folder).unwrap();
    let ghost f0 = f;
    let mut nodes: Vec<DlNode> = Vec::new();
    std::mem::swap(&mut nodes, &mut f.nodes);
    proof {
        assert(nodes@ == f0.nodes@);
        assert forall|i: int| 0 <= i < nodes@.len() implies kid_jobs(&jobs@, nodes@.take(i)) == kid_jobs(&m0, nodes@.take(i)) by {
            lemma_kids_without(m0, jobs@, folder, nodes@, i);
        }
        lemma_kids_without(m0, jobs@, folder, nodes@, nodes@.len() as int);
        assert(nodes@.take(nodes@.len() as int) == nodes@);
    }
    let (total, done, speed, status) = {
        let kids = collect_kids(jobs, &nodes);
        aggregate_children(kids.as_slice())
    };
    let ghost before_marks = nodes@;
    mark_done(&mut nodes, jobs);
    let ghost raw = nodes@;
    proof {
        assert forall|i: int| 0 <= i < raw.len() implies #[trigger] raw[i] == before_marks.map_values(|n: DlNode| marked(m0, n))[i] by {
            lemma_marked_without(m0, jobs@, folder, before_marks[i]);
        }
        assert(raw == before_marks.map_values(|n: DlNode| marked(m0, n)));
    }
    compute_dir_counts(&mut nodes);
    let (files_total, files_done) = count_file_rows(&nodes);
    if f.total == 0 {
        f.total = total;
    }
    f.done = done;
    f.speed = speed;
    let terminal_now = matches!(status, DlStatus::Done | DlStatus::Failed(_));
    let write = if terminal_now && f.record_id.as_str().is_empty() {
        Some(dl_record_status(&status))
    } else {
        None
    };
    f.status = status;
    f.files_done = files_done;
    f.files_total = files_total;
    f.nodes = nodes;
    jobs.insert(folder, f);
    proof {
        assert(jobs@.dom() =~= m0.dom());
    }
    write
}

/// Without the folder's own entry the table gives its rows the same jobs.
proof fn lemma_kids_without(m0: Map<u64, DlJob>, m1: Map<u64, DlJob>, folder: u64, ns: Seq<DlNode>, i: int)
    requires
        m1 == m0.remove(folder),
        0 <= i <= ns.len(),
        forall|k: int| 0 <= k < ns.len() ==> (#[trigger] ns[k]).rid != Some(folder),
    ensures
        kid_jobs(&m1, ns.take(i)) == kid_jobs(&m0, ns.take(i)),
    decreases i,
{
    if i > 0 {
        lemma_kids_without(m0, m1, folder, ns, i - 1);
        assert(ns.take(i).drop_last() == ns.take(i - 1));
        assert(ns.take(i).last() == ns[i - 1]);
    }
}

/// Without the folder's own entry a row gets the same done mark.
proof fn lemma_marked_without(m0: Map<u64, DlJob>, m1: Map<u64, DlJob>, folder: u64, n: DlNode)
    requires
        m1 == m0.remove(folder),
        n.rid != Some(folder),
    ensures
        marked(m1, n) == marked(m0, n),
{
}

/// The history row kept for tree row `n`: a file row takes its job's drive
/// id, directory, sizes, outcome and time (a row whose job is gone keeps
/// empty values and counts as done).
pub open spec fn child_record_of(cr: DownloadChildRecord, n: DlNode, m: Map<u64, DlJob>) -> bool {
    &&& cr.name@ == n.name@
    &&& cr.is_dir == n.is_dir
    &&& cr.depth == n.depth
    &&& match n.rid {
        Some(r) if m.contains_key(r) => {
            &&& cr.file_id@ == m[r].file_id@
            &&& cr.dir@ == m[r].dir@
            &&& cr.total == m[r].total
            &&& cr.done == m[r].done
            &&& records(cr.status, m[r].status)
            &&& cr.at == match m[r].at {
                Some(a) => a,
                None => 0,
            }
        },
        _ => {
            &&& cr.file_id@ == Seq::<char>::empty()
            &&& cr.dir@ == Seq::<char>::empty()
            &&& cr.total == 0
            &&& cr.done == 0
            &&& cr.status is Done
            &&& cr.at == 0
        },
    }
}

/// The history rows of folder job `folder`'s tree, in order.
pub fn snapshot_children(jobs: &BTreeMap<u64, DlJob>, folder: u64) -> (cs: Vec<DownloadChildRecord>)
    ensures
        jobs@.contains_key(folder) ==> cs@.len() == jobs@[folder].nodes@.len() && forall|i: int|
            0 <= i < cs@.len() ==> child_record_of(#[trigger] cs@[i], jobs@[folder].nodes@[i], jobs@),
        !jobs@.contains_key(folder) ==> cs@.len() == 0,
{
    let mut cs: Vec<DownloadChildRecord> = Vec::new();
    let f = match jobs.get(&folder) {
        Some(f) => f,
        None => return cs,
    };
    let mut i: usize = 0;
    while i < f.nodes.len()
        invariant
            jobs@.contains_key(folder),
            *f == jobs@[folder],
            0 <= i <= f.nodes@.len(),
            cs@.len() == i,
            forall|k: int| 0 <= k < i ==> child_record_of(#[trigger] cs@[k], f.nodes@[k], jobs@),
        decreases f.nodes@.len() - i,
    {
        let n = &f.nodes[i];
        let c = match n.rid {
            Some(r) => jobs.get(&r),
            None => None,
        };
        let rec = match c {
            Some(c) => DownloadChildRecord {
                file_id: c.file_id.clone(),
                name: n.name.clone(),
                dir: c.dir.clone(),
                total: c.total,
                done: c.done,
                status: dl_record_status(&c.status),
                at: match c.at {
                    Some(a) => a,
                    None => 0,
                },
                is_dir: n.is_dir,
                depth: n.depth,
            },
            None => DownloadChildRecord {
                file_id: String::new(),
                name: n.name.clone(),
                dir: String::new(),
                total: 0,
                done: 0,
                status: DownloadRecordStatus::Done,
                at: 0,
                is_dir: n.is_dir,
                depth: n.depth,
            },
        };
        cs.push(rec);
        i += 1;
    }
    cs
}

/// The history record of job `rid` for `status`, written with id `rec_id` at
/// `at` (unix seconds): the job takes the record's id and time; a folder
/// job's record carries the rows of its tree. `None` when there is no such job.
pub fn take_record(
    jobs: &mut BTreeMap<u64, DlJob>,
    rid: u64,
    status: DownloadRecordStatus,
    rec_id: String,
    at: u64,
) -> (r: Option<DownloadRecord>)
    ensures
        table_ok(old(jobs)@) ==> table_ok(final(jobs)@),
        !old(jobs)@.contains_key(rid) ==> r is None && final(jobs)@ == old(jobs)@,
        old(jobs)@.contains_key(rid) ==> {
            let j = old(jobs)@[rid];
            &&& final(jobs)@ == old(jobs)@.insert(rid, DlJob { record_id: rec_id, at: Some(at), ..j })
            &&& r matches Some(rec) && {
                &&& rec.file_id@ == j.file_id@
                &&& rec.name@ == j.name@
                &&& rec.dir@ == j.dir@
                &&& rec.total == j.total
                &&& rec.done == j.done
                &&& rec.status == status
                &&& rec.at == at
                &&& rec.timestamp == rec_id
                &&& rec.is_folder == (j.folder_id is Some)
                &&& if j.folder_id is Some {
                    &&& rec.children@.len() == j.nodes@.len()
                    &&& forall|i: int|
                        0 <= i < rec.children@.len() ==> child_record_of(
                            #[trigger] rec.children@[i],
                            j.nodes@[i],
                            old(jobs)@,
                        )
                } else {
                    rec.children@.len() == 0
                }
            }
        },
{
    let is_folder = match jobs.get(&rid) {
        Some(j) => j.is_folder(),
        None => return None,
    };
    let children = if is_folder {
        snapshot_children(jobs, rid)
    } else {
        Vec::new()
    };
    let mut j = jobs.remove(&rid).unwrap();
    let rec = DownloadRecord {
        file_id: j.file_id.clone(),
        name: j.name.clone(),
        dir: j.dir.clone(),
        total: j.total,
        done: j.done,
        status,
        at,
        timestamp: rec_id.clone(),
        is_folder,
        children,
    };
    j.record_id = rec_id;
    j.at = Some(at);
    jobs.insert(rid, j);
    Some(rec)
}

/// The job ids of a tree's file rows, in row order.
pub open spec fn file_rids(ns: Seq<DlNode>) -> Seq<u64>
    decreases ns.len(),
{
    if ns.len() == 0 {
        Seq::empty()
    } else {
        match ns.last().rid {
            Some(r) => file_rids(ns.drop_last()).push(r),
            None => file_rids(ns.drop_last()),
        }
    }
}

/// Whether a job is queued or running.
pub open spec fn active(j: DlJob) -> bool {
    j.status is Queued || j.status is Running
}

/// The jobs to cancel when the jobs `ks` are taken out of table `m` one by
/// one: those still in the table and active when their turn comes.
pub open spec fn cancels(m: Map<u64, DlJob>, ks: Seq<u64>) -> Seq<u64>
    decreases ks.len(),
{
    if ks.len() == 0 {
        Seq::empty()
    } else {
        let k = ks[0];
        (if m.contains_key(k) && active(m[k]) {
            seq![k]
        } else {
            Seq::empty()
        }) + cancels(m.remove(k), ks.drop_first())
    }
}

/// Table `m` without the jobs `ks`.
pub open spec fn without_jobs(m: Map<u64, DlJob>, ks: Seq<u64>) -> Map<u64, DlJob>
    decreases ks.len(),
{
    if ks.len() == 0 {
        m
    } else {
        without_jobs(m.remove(ks[0]), ks.drop_first())
    }
}

/// What taking a download job off the list asks of the caller.
#[derive(Debug)]
pub struct DlRemoval {
    /// Jobs to cancel in the transfer worker.
    pub cancel: Vec<u64>,
    /// Jobs taken out of the table (to drop from the selection).
    pub removed: Vec<u64>,
    /// History record to delete: (record id, drive id, name, directory).
    pub forget: Option<(String, String, String, String)>,
    /// After a file row left its folder and the folder became final without
    /// a history record: the folder, and the status to write.
    pub folder_write: Option<(u64, DownloadRecordStatus)>,
}

/// The history key of a job: (record id, drive id, name, directory).
pub open spec fn record_key(f: (String, String, String, String), j: DlJob) -> bool {
    f.0@ == j.record_id@ && f.1@ == j.file_id@ && f.2@ == j.name@ && f.3@ == j.dir@
}

/// No folder job's tree points at the folder itself.
pub open spec fn table_ok(m: Map<u64, DlJob>) -> bool {
    forall|k: u64, i: int|
        m.contains_key(k) && 0 <= i < m[k].nodes@.len() ==> (#[trigger] m[k].nodes@[i]).rid != Some(k)
}

/// Whether the status to write after a roll-up is asked for exactly when the
/// folder (with history id `record_id`) just became final without a record.
pub open spec fn write_due(write: Option<DownloadRecordStatus>, st: DlStatus, record_id: Seq<char>) -> bool {
    match write {
        Some(rs) => terminal(st) && record_id.len() == 0 && records(rs, st),
        None => !(terminal(st) && record_id.len() == 0),
    }
}

/// Takes download job `rid` off the list. A folder job leaves with all its
/// file jobs (active ones are cancelled) and its history record. A file of a
/// folder leaves its folder's tree, and the folder is rolled up again. An
/// active single file is only cancelled (it leaves once the worker reports);
/// a finished one leaves with its history record.
pub fn remove_download_job(jobs: &mut BTreeMap<u64, DlJob>, rid: u64) -> (r: DlRemoval)
    requires
        table_ok(old(jobs)@),
    ensures
        table_ok(final(jobs)@),
        !old(jobs)@.contains_key(rid) ==> final(jobs)@ == old(jobs)@ && r.cancel@.len() == 0
            && r.removed@.len() == 0 && r.forget is None && r.folder_write is None,
        old(jobs)@.contains_key(rid) ==> {
            let j = old(jobs)@[rid];
            let kids = file_rids(j.nodes@);
            if j.folder_id is Some {
                &&& final(jobs)@ == without_jobs(old(jobs)@, kids).remove(rid)
                &&& r.cancel@ == cancels(old(jobs)@, kids)
                &&& r.removed@ == kids.push(rid)
                &&& r.forget matches Some(f) && record_key(f, j)
                &&& r.folder_write is None
            } else if j.parent is Some {
                let p = j.parent.unwrap();
                &&& r.cancel@.len() == 0
                &&& r.removed@ == seq![rid]
                &&& r.forget is None
                &&& if old(jobs)@.contains_key(p) && p != rid {
                    let pj = old(jobs)@[p];
                    let tree = pj.nodes@.filter(|n: DlNode| n.rid != Some(rid));
                    &&& final(jobs)@.dom() == old(jobs)@.dom().remove(rid)
                    &&& forall|k: u64|
                        k != p && k != rid && old(jobs)@.contains_key(k) ==> final(jobs)@[k] == old(jobs)@[k]
                    &&& if pj.folder_id is Some {
                        &&& rolled_up(final(jobs)@[p], pj, tree, old(jobs)@.remove(rid))
                        &&& match r.folder_write {
                            Some((fp, rs)) => fp == p && write_due(Some(rs), final(jobs)@[p].status, pj.record_id@),
                            None => write_due(None, final(jobs)@[p].status, pj.record_id@),
                        }
                    } else {
                        &&& final(jobs)@[p] == DlJob { nodes: final(jobs)@[p].nodes, ..pj }
                        &&& final(jobs)@[p].nodes@ == tree
                        &&& r.folder_write is None
                    }
                } else {
                    &&& final(jobs)@ == old(jobs)@.remove(rid)
                    &&& r.folder_write is None
                }
            } else if active(j) {
                &&& final(jobs)@ == old(jobs)@
                &&& r.cancel@ == seq![rid]
                &&& r.removed@.len() == 0
                &&& r.forget is None
                &&& r.folder_write is None
            } else {
                &&& final(jobs)@ == old(jobs)@.remove(rid)
                &&& r.cancel@.len() == 0
                &&& r.removed@ == seq![rid]
                &&& r.forget matches Some(f) && record_key(f, j)
                &&& r.folder_write is None
            }
        },
{
    let mut out = DlRemoval { cancel: Vec::new(), removed: Vec::new(), forget: None, folder_write: None };
    let (is_folder, parent, running, key) = match jobs.get(&rid) {
        Some(j) => (
            j.is_folder(),
            j.parent,
            matches!(j.status, DlStatus::Queued | DlStatus::Running),
            (j.record_id.clone(), j.file_id.clone(), j.name.clone(), j.dir.clone()),
        ),
        None => return out,
    };
    if is_folder {
        let kids = job_ids_of(&jobs.get(&rid).unwrap().nodes);
        let ghost m0 = jobs@;
        proof {
            assert(kids@.skip(0) == kids@);
            assert(out.cancel@ + cancels(jobs@, kids@) == cancels(jobs@, kids@));
        }
        let mut i: usize = 0;
        while i < kids.len()
            invariant
                0 <= i <= kids@.len(),
                without_jobs(m0, kids@) == without_jobs(jobs@, kids@.skip(i as int)),
                cancels(m0, kids@) == out.cancel@ + cancels(jobs@, kids@.skip(i as int)),
                out.removed@ == kids@.take(i as int),
                table_ok(jobs@),
                out.forget is None,
                out.folder_write is None,
            decreases kids@.len() - i,
        {
            let cid = kids[i];
            proof {
                assert(kids@.skip(i as int)[0] == cid);
                assert(kids@.skip(i as int).drop_first() == kids@.skip(i + 1));
                assert(kids@.take(i + 1) == kids@.take(i as int).push(cid));
            }
            let c_running = match jobs.get(&cid) {
                Some(c) => matches!(c.status, DlStatus::Queued | DlStatus::Running),
                None => false,
            };
            let ghost c0 = out.cancel@;
            if c_running {
                out.cancel.push(cid);
            }
            proof {
                assert(cancels(m0, kids@) == out.cancel@ + cancels(jobs@.remove(cid), kids@.skip(i + 1)));
            }
            jobs.remove(&cid);
            out.removed.push(cid);
            i += 1;
        }
        proof {
            assert(kids@.skip(kids@.len() as int).len() == 0);
            assert(kids@.take(kids@.len() as int) == kids@);
        }
        out.forget = Some(key);
        jobs.remove(&rid);
        out.removed.push(rid);
        return out;
    }
    if let Some(p) = parent {
        out.removed.push(rid);
        if p != rid && jobs.contains_key(&p) {
            jobs.remove(&rid);
            let write = leave_folder(jobs, p, rid);
            if let Some(w) = write {
                out.folder_write = Some((p, w));
            }
        } else {
            jobs.remove(&rid);
        }
        return out;
    }
    if running {
        out.cancel.push(rid);
        return out;
    }
    out.forget = Some(key);
    jobs.remove(&rid);
    out.removed.push(rid);
    out
}

/// The job ids of a tree's file rows, in row order.
fn job_ids_of(nodes: &Vec<DlNode>) -> (r: Vec<u64>)
    ensures
        r@ == file_rids(nodes@),
{
    let mut r: Vec<u64> = Vec::new();
    let mut i: usize = 0;
    while i < nodes.len()
        invariant
            0 <= i <= nodes@.len(),
            r@ == file_rids(nodes@.take(i as int)),
        decreases nodes@.len() - i,
    {
        proof {
            assert(nodes@.take(i + 1).drop_last() == nodes@.take(i as int));
        }
        if let Some(k) = nodes[i].rid {
            r.push(k);
        }
        i += 1;
    }
    assert(nodes@.take(nodes@.len() as int) == nodes@);
    r
}

/// The tree without the rows of job `rid`.
fn without_row(nodes: Vec<DlNode>, rid: u64) -> (r: Vec<DlNode>)
    ensures
        r@ == nodes@.filter(|n: DlNode| n.rid != Some(rid)),
{
    let ghost n0 = nodes@;
    let ghost pred = |n: DlNode| n.rid != Some(rid);
    let mut rest = nodes;
    let mut r: Vec<DlNode> = Vec::new();
    let total = rest.len();
    let mut k: usize = 0;
    while rest.len() > 0
        invariant
            total == n0.len(),
            0 <= k <= n0.len(),
            rest@ == n0.subrange(k as int, n0.len() as int),
            r@ == n0.take(k as int).filter(pred),
            pred == (|n: DlNode| n.rid != Some(rid)),
        decreases rest@.len(),
    {
        let n = rest.remove(0);
        proof {
            assert(k < n0.len());
            assert(n == n0[k as int]);
            assert(n0.take(k + 1) == n0.take(k as int).push(n));
            n0.take(k as int).lemma_filter_push(n, pred);
        }
        if n.rid != Some(rid) {
            r.push(n);
        }
        k = k + 1;
        proof {
            assert(rest@ == n0.subrange(k as int, n0.len() as int));
        }
    }
    proof {
        assert(n0.take(k as int) == n0);
    }
    r
}

/// Tables that agree off key `p` give a tree that never points at `p` the
/// same jobs and done marks.
proof fn lemma_kids_same_except(m1: Map<u64, DlJob>, m2: Map<u64, DlJob>, p: u64, ns: Seq<DlNode>)
    requires
        forall|k: u64| k != p ==> (m1.contains_key(k) == m2.contains_key(k)),
        forall|k: u64| k != p && m1.contains_key(k) ==> m1[k] == m2[k],
        forall|i: int| 0 <= i < ns.len() ==> (#[trigger] ns[i]).rid != Some(p),
    ensures
        kid_jobs(&m1, ns) == kid_jobs(&m2, ns),
        ns.map_values(|n: DlNode| marked(m1, n)) == ns.map_values(|n: DlNode| marked(m2, n)),
    decreases ns.len(),
{
    if ns.len() > 0 {
        let ns2 = ns.drop_last();
        assert forall|i: int| 0 <= i < ns2.len() implies (#[trigger] ns2[i]).rid != Some(p) by {
            assert(ns2[i] == ns[i]);
        }
        lemma_kids_same_except(m1, m2, p, ns2);
        assert(ns.last() == ns[ns.len() - 1]);
    }
    assert(ns.map_values(|n: DlNode| marked(m1, n)) =~= ns.map_values(|n: DlNode| marked(m2, n)));
}

/// Whether tree row `n` is a file whose job is in table `m` and failed.
pub open spec fn failed_row(m: Map<u64, DlJob>, n: DlNode) -> bool {
    n.rid matches Some(r) && m.contains_key(r) && m[r].status is Failed
}

/// Number of failed file rows among the first `i` rows.
pub open spec fn failed_before(m: Map<u64, DlJob>, ns: Seq<DlNode>, i: int) -> nat
    decreases i,
{
    if i <= 0 {
        0
    } else {
        failed_before(m, ns, i - 1) + if failed_row(m, ns[i - 1]) {
            1nat
        } else {
            0nat
        }
    }
}

/// The id the retry gives failed row `i`: the next ids, in row order.
pub open spec fn retry_id(m: Map<u64, DlJob>, ns: Seq<DlNode>, i: int, base: u64) -> u64 {
    (base + 1 + failed_before(m, ns, i)) as u64
}

/// The tree with each failed row pointing at its retry job.
pub open spec fn relinked(m: Map<u64, DlJob>, ns: Seq<DlNode>, base: u64) -> Seq<DlNode> {
    Seq::new(
        ns.len(),
        |i: int|
            if failed_row(m, ns[i]) {
                DlNode { rid: Some(retry_id(m, ns, i, base)), ..ns[i] }
            } else {
                ns[i]
            },
    )
}

/// What retrying a folder download asks of the caller.
#[derive(Debug)]
pub struct FolderRetry {
    /// Scan the folder again (it failed before any file was known), under the
    /// folder job's own id: (drive id, name, target directory).
    pub rescan: Option<(String, String, String)>,
    /// File downloads to start: (new job id, drive id, name, directory).
    pub starts: Vec<(u64, String, String, String)>,
    /// Jobs taken out of the table (to drop from the selection).
    pub removed: Vec<u64>,
    /// History record to delete: (record id, drive id, name, directory).
    pub forget: Option<(String, String, String, String)>,
    /// The status to write to the folder's history, when due.
    pub write: Option<DownloadRecordStatus>,
}

/// The failed rows of a tree, in order: (row, job id, drive id, name, directory).
fn failed_list(jobs: &BTreeMap<u64, DlJob>, nodes: &Vec<DlNode>) -> (r: Vec<(usize, u64, String, String, String)>)
    ensures
        r@.len() == failed_before(jobs@, nodes@, nodes@.len() as int),
        forall|i: int|
            0 <= i < nodes@.len() && failed_row(jobs@, #[trigger] nodes@[i]) ==> {
                let e = r@[failed_before(jobs@, nodes@, i) as int];
                let c = jobs@[nodes@[i].rid.unwrap()];
                &&& e.0 == i
                &&& Some(e.1) == nodes@[i].rid
                &&& e.2@ == c.file_id@
                &&& e.3@ == c.name@
                &&& e.4@ == c.dir@
            },
        forall|q: int|
            0 <= q < r@.len() ==> (#[trigger] r@[q]).0 < nodes@.len() && failed_row(jobs@, nodes@[r@[q].0 as int])
                && failed_before(jobs@, nodes@, r@[q].0 as int) == q,
{
    let mut r: Vec<(usize, u64, String, String, String)> = Vec::new();
    let mut i: usize = 0;
    while i < nodes.len()
        invariant
            0 <= i <= nodes@.len(),
            r@.len() == failed_before(jobs@, nodes@, i as int),
            forall|k: int|
                0 <= k < i && failed_row(jobs@, #[trigger] nodes@[k]) ==> {
                    let e = r@[failed_before(jobs@, nodes@, k) as int];
                    let c = jobs@[nodes@[k].rid.unwrap()];
                    &&& e.0 == k
                    &&& Some(e.1) == nodes@[k].rid
                    &&& e.2@ == c.file_id@
                    &&& e.3@ == c.name@
                    &&& e.4@ == c.dir@
                },
            forall|q: int|
                0 <= q < r@.len() ==> (#[trigger] r@[q]).0 < i && failed_row(jobs@, nodes@[r@[q].0 as int])
                    && failed_before(jobs@, nodes@, r@[q].0 as int) == q,
        decreases nodes@.len() - i,
    {
        proof {
            lemma_failed_before_mono(jobs@, nodes@, i as int);
        }
        if let Some(cr) = nodes[i].rid {
            if let Some(c) = jobs.get(&cr) {
                if matches!(c.status, DlStatus::Failed(_)) {
                    r.push((i, cr, c.file_id.clone(), c.name.clone(), c.dir.clone()));
                }
            }
        }
        i += 1;
    }
    r
}

proof fn lemma_failed_before_mono(m: Map<u64, DlJob>, ns: Seq<DlNode>, i: int)
    requires
        0 <= i,
    ensures
        forall|k: int| 0 <= k < i ==> #[trigger] failed_before(m, ns, k) < failed_before(m, ns, i) || !failed_row(m, ns[k]),
        forall|k: int| 0 <= k <= i ==> #[trigger] failed_before(m, ns, k) <= failed_before(m, ns, i),
    decreases i,
{
    if i > 0 {
        lemma_failed_before_mono(m, ns, i - 1);
    }
}

/// A new file job of folder `parent` for the same file as job `c`.
pub open spec fn retry_of(j: DlJob, c: DlJob, parent: u64) -> bool {
    &&& j.file_id@ == c.file_id@
    &&& j.name@ == c.name@
    &&& j.dir@ == c.dir@
    &&& j.record_id@ == Seq::<char>::empty()
    &&& j.total == 0
    &&& j.done == 0
    &&& j.status == DlStatus::Queued
    &&& idle(j)
    &&& j.at is None
    &&& j.folder_id is None
    &&& j.parent == Some(parent)
    &&& j.nodes@.len() == 0
    &&& !j.expanded
    &&& j.files_done == 0
    &&& j.files_total == 0
}

/// Whether `k` is the job of a failed row of tree `ns`.
pub open spec fn retried_job(m: Map<u64, DlJob>, ns: Seq<DlNode>, k: u64) -> bool {
    exists|i: int| 0 <= i < ns.len() && failed_row(m, ns[i]) && ns[i].rid == Some(k)
}

/// Whether a tree has a file row.
fn has_file_row(nodes: &Vec<DlNode>) -> (b: bool)
    ensures
        b == exists|i: int| 0 <= i < nodes@.len() && !nodes@[i].is_dir,
{
    let mut i: usize = 0;
    while i < nodes.len()
        invariant
            0 <= i <= nodes@.len(),
            forall|k: int| 0 <= k < i ==> nodes@[k].is_dir,
        decreases nodes@.len() - i,
    {
        if !nodes[i].is_dir {
            return true;
        }
        i += 1;
    }
    false
}

/// Points tree row `idx` at job `to`.
fn relink_row(nodes: &mut Vec<DlNode>, idx: usize, to: u64)
    requires
        idx < old(nodes)@.len(),
    ensures
        final(nodes)@ == old(nodes)@.update(idx as int, DlNode { rid: Some(to), ..old(nodes)@[idx as int] }),
{
    let mut n = nodes.remove(idx);
    n.rid = Some(to);
    nodes.insert(idx, n);
}

/// Retries folder download `rid`. When it failed before any file was known,
/// it goes back to the queue to be scanned again. Otherwise each failed file
/// gets a new job, numbered on from `last_id` in row order, which its row now
/// points at; the failed jobs leave; the folder drops its history record and
/// is rolled up again. Nothing happens without such a job or failed file.
pub fn retry_folder(jobs: &mut BTreeMap<u64, DlJob>, rid: u64, last_id: &mut u64) -> (r: FolderRetry)
    requires
        table_ok(old(jobs)@),
        forall|k: u64| old(jobs)@.contains_key(k) ==> k <= *old(last_id),
        old(jobs)@.contains_key(rid) ==> *old(last_id) + old(jobs)@[rid].nodes@.len() <= u64::MAX,
    ensures
        table_ok(final(jobs)@),
        !old(jobs)@.contains_key(rid) ==> final(jobs)@ == old(jobs)@ && *final(last_id) == *old(last_id)
            && r.rescan is None && r.starts@.len() == 0 && r.removed@.len() == 0 && r.forget is None
            && r.write is None,
        old(jobs)@.contains_key(rid) ==> {
            let m0 = old(jobs)@;
            let j = m0[rid];
            let ns = j.nodes@;
            let base = *old(last_id);
            let nf = failed_before(m0, ns, ns.len() as int);
            if !(exists|i: int| 0 <= i < ns.len() && !ns[i].is_dir) {
                &&& final(jobs)@ == m0.insert(
                    rid,
                    DlJob {
                        record_id: final(jobs)@[rid].record_id,
                        at: None,
                        status: DlStatus::Queued,
                        expanded: true,
                        ..j
                    },
                )
                &&& final(jobs)@[rid].record_id@.len() == 0
                &&& *final(last_id) == base
                &&& r.forget matches Some(f) && record_key(f, j)
                &&& match j.folder_id {
                    Some(fid) => r.rescan matches Some(t) && t.0@ == fid@ && t.1@ == j.name@ && t.2@ == j.dir@,
                    None => r.rescan is None,
                }
                &&& r.starts@.len() == 0 && r.removed@.len() == 0 && r.write is None
            } else if nf == 0 {
                &&& final(jobs)@ == m0
                &&& *final(last_id) == base
                &&& r.rescan is None && r.starts@.len() == 0 && r.removed@.len() == 0
                &&& r.forget is None && r.write is None
            } else {
                &&& *final(last_id) == base + nf
                &&& forall|k: u64|
                    #![trigger final(jobs)@.contains_key(k)]
                    final(jobs)@.contains_key(k) <==> (k == rid || (m0.contains_key(k) && !retried_job(m0, ns, k))
                        || (base < k <= base + nf))
                &&& forall|k: u64|
                    #![trigger m0.contains_key(k)]
                    m0.contains_key(k) && k != rid && !retried_job(m0, ns, k) ==> final(jobs)@[k] == m0[k]
                &&& r.starts@.len() == nf
                &&& r.removed@.len() == nf
                &&& forall|i: int|
                    0 <= i < ns.len() && failed_row(m0, #[trigger] ns[i]) ==> {
                        let c = m0[ns[i].rid.unwrap()];
                        let nid = retry_id(m0, ns, i, base);
                        let st = r.starts@[failed_before(m0, ns, i) as int];
                        &&& retry_of(final(jobs)@[nid], c, rid)
                        &&& st.0 == nid && st.1@ == c.file_id@ && st.2@ == c.name@ && st.3@ == c.dir@
                        &&& Some(r.removed@[failed_before(m0, ns, i) as int]) == ns[i].rid
                    }
                &&& final(jobs)@[rid].record_id@.len() == 0
                &&& if j.folder_id is Some {
                    &&& rolled_up(
                        final(jobs)@[rid],
                        DlJob { record_id: final(jobs)@[rid].record_id, at: None, expanded: true, ..j },
                        relinked(m0, ns, base),
                        final(jobs)@,
                    )
                    &&& write_due(r.write, final(jobs)@[rid].status, Seq::<char>::empty())
                } else {
                    &&& final(jobs)@[rid] == DlJob {
                        nodes: final(jobs)@[rid].nodes,
                        record_id: final(jobs)@[rid].record_id,
                        at: None,
                        expanded: true,
                        ..j
                    }
                    &&& final(jobs)@[rid].nodes@ == relinked(m0, ns, base)
                    &&& r.write is None
                }
                &&& r.forget matches Some(f) && record_key(f, j)
                &&& r.rescan is None
            }
        },
{
    let mut out = FolderRetry { rescan: None, starts: Vec::new(), removed: Vec::new(), forget: None, write: None };
    let (has_files, key, folder_id, name, dir) = match jobs.get(&rid) {
        Some(j) => (
            has_file_row(&j.nodes),
            (j.record_id.clone(), j.file_id.clone(), j.name.clone(), j.dir.clone()),
            j.folder_id.clone(),
            j.name.clone(),
            j.dir.clone(),
        ),
        None => return out,
    };
    if !has_files {
        out.forget = Some(key);
        let mut j = jobs.remove(&rid).unwrap();
        j.record_id = String::new();
        j.at = None;
        j.status = DlStatus::Queued;
        j.expanded = true;
        jobs.insert(rid, j);
        if let Some(fid) = folder_id {
            out.rescan = Some((fid, name, dir));
        }
        return out;
    }
    let ghost m0 = jobs@;
    let ghost ns = m0[rid].nodes@;
    let ghost base = *last_id;
    let failed = failed_list(jobs, &jobs.get(&rid).unwrap().nodes);
    if failed.len() == 0 {
        return out;
    }
    proof {
        lemma_failed_before_le(m0, ns, ns.len() as int);
    }
    let mut f = jobs.remove(&rid).unwrap();
    let mut q: usize = 0;
    while q < failed.len()
        invariant
            0 <= q <= failed@.len(),
            m0.contains_key(rid),
            ns == m0[rid].nodes@,
            table_ok(m0),
            forall|k: u64| m0.contains_key(k) ==> k <= base,
            failed@.len() == failed_before(m0, ns, ns.len() as int),
            forall|i: int|
                0 <= i < ns.len() && failed_row(m0, #[trigger] ns[i]) ==> {
                    let e = failed@[failed_before(m0, ns, i) as int];
                    let c = m0[ns[i].rid.unwrap()];
                    &&& e.0 == i
                    &&& Some(e.1) == ns[i].rid
                    &&& e.2@ == c.file_id@
                    &&& e.3@ == c.name@
                    &&& e.4@ == c.dir@
                },
            forall|e: int|
                0 <= e < failed@.len() ==> (#[trigger] failed@[e]).0 < ns.len() && failed_row(m0, ns[failed@[e].0 as int])
                    && failed_before(m0, ns, failed@[e].0 as int) == e,
            *last_id == base + q,
            base + ns.len() <= u64::MAX,
            failed@.len() <= ns.len(),
            f.nodes@.len() == ns.len(),
            f == (DlJob { nodes: f.nodes, ..m0[rid] }),
            forall|i: int| 0 <= i < ns.len() ==> #[trigger] f.nodes@[i] == if failed_row(m0, ns[i]) && failed_before(m0, ns, i) < q {
                DlNode { rid: Some(retry_id(m0, ns, i, base)), ..ns[i] }
            } else {
                ns[i]
            },
            forall|k: u64|
                #![trigger jobs@.contains_key(k)]
                jobs@.contains_key(k) <==> ((m0.contains_key(k) && k != rid && !(exists|e: int| 0 <= e < q && failed@[e].1 == k))
                    || (base < k <= base + q)),
            forall|k: u64|
                #![trigger m0.contains_key(k)]
                m0.contains_key(k) && k != rid && !(exists|e: int| 0 <= e < q && failed@[e].1 == k) ==> jobs@[k] == m0[k],
            forall|e: int| 0 <= e < q ==> retry_of(#[trigger] jobs@[(base + 1 + e) as u64], m0[failed@[e].1], rid),
            table_ok(jobs@),
            out.starts@.len() == q,
            out.removed@.len() == q,
            forall|e: int| 0 <= e < q ==> (#[trigger] out.starts@[e]).0 == base + 1 + e && out.starts@[e].1@ == failed@[e].2@
                && out.starts@[e].2@ == failed@[e].3@ && out.starts@[e].3@ == failed@[e].4@,
            forall|e: int| 0 <= e < q ==> #[trigger] out.removed@[e] == failed@[e].1,
            out.rescan is None,
            out.forget is None,
            out.write is None,
        decreases failed@.len() - q,
    {
        let e_row = failed[q].0;
        let old_cid = failed[q].1;
        let fid = failed[q].2.clone();
        let nm = failed[q].3.clone();
        let d = failed[q].4.clone();
        proof {
            let i = e_row as int;
            assert(failed_row(m0, ns[i]) && failed_before(m0, ns, i) == q);
            lemma_failed_before_mono(m0, ns, ns.len() as int);
            assert(Some(old_cid) == ns[i].rid);
            assert(m0.contains_key(old_cid));
            assert(old_cid <= base);
            assert forall|i2: int| 0 <= i2 < ns.len() && i2 != i && failed_row(m0, ns[i2]) implies failed_before(m0, ns, i2) != q by {
                if i2 < i {
                    lemma_failed_before_mono(m0, ns, i);
                } else {
                    lemma_failed_before_mono(m0, ns, i2);
                }
            }
        }
        *last_id = *last_id + 1;
        let new_cid = *last_id;
        let ghost before = jobs@;
        jobs.insert(new_cid, DlJob::child(fid.clone(), nm.clone(), d.clone(), rid));
        out.starts.push((new_cid, fid, nm, d));
        relink_row(&mut f.nodes, e_row, new_cid);
        jobs.remove(&old_cid);
        out.removed.push(old_cid);
        proof {
            assert forall|e: int| 0 <= e < q + 1 implies retry_of(#[trigger] jobs@[(base + 1 + e) as u64], m0[failed@[e].1], rid) by {
                if e < q {
                    assert(before[(base + 1 + e) as u64] == jobs@[(base + 1 + e) as u64]);
                }
            }
            assert forall|k: u64|
                #![trigger jobs@.contains_key(k)]
                jobs@.contains_key(k) <==> ((m0.contains_key(k) && k != rid && !(exists|e: int| 0 <= e < q + 1 && failed@[e].1 == k))
                    || (base < k <= base + q + 1)) by {
                if exists|e: int| 0 <= e < q + 1 && failed@[e].1 == k {
                    if !(exists|e: int| 0 <= e < q && failed@[e].1 == k) {
                        assert(k == old_cid);
                    }
                }
                if k == old_cid {
                    assert(failed@[q as int].1 == k);
                }
            }
            assert forall|k: u64|
                #![trigger m0.contains_key(k)]
                m0.contains_key(k) && k != rid && !(exists|e: int| 0 <= e < q + 1 && failed@[e].1 == k) implies jobs@[k] == m0[k] by {
                assert(failed@[q as int].1 == old_cid);
                assert(k != old_cid);
                assert(k <= base);
            }
        }
        q += 1;
    }
    let ghost nf = failed@.len() as int;
    proof {
        lemma_failed_before_mono(m0, ns, ns.len() as int);
        assert(f.nodes@ =~= relinked(m0, ns, base));
    }
    let ghost tree = f.nodes@;
    out.forget = Some(key);
    f.record_id = String::new();
    f.at = None;
    f.expanded = true;
    jobs.insert(rid, f);
    let ghost mid = jobs@;
    proof {
        assert forall|i: int| 0 <= i < tree.len() implies (#[trigger] tree[i]).rid != Some(rid) by {
            assert(m0[rid].nodes@[i].rid != Some(rid));
            if failed_row(m0, ns[i]) {
                assert(base >= rid);
            }
        }
        assert(mid[rid].nodes@ == tree);
    }
    out.write = recompute_folder(jobs, rid);
    proof {
        let fin = jobs@;
        lemma_kids_same_except(mid, fin, rid, tree);
        assert(tree == relinked(m0, ns, base));
        if m0[rid].folder_id is Some {
            assert(mid.contains_key(rid));
            assert(mid[rid].folder_id is Some);
            assert(rolled_up(fin[rid], mid[rid], mid[rid].nodes@, mid));
            assert(rolled_up(fin[rid], mid[rid], tree, fin));
        }
        assert forall|k: u64| (exists|e: int| 0 <= e < nf && failed@[e].1 == k) <==> retried_job(m0, ns, k) by {
            if exists|e: int| 0 <= e < nf && failed@[e].1 == k {
                let e = choose|e: int| 0 <= e < nf && failed@[e].1 == k;
                let i = failed@[e].0 as int;
                assert(failed_row(m0, ns[i]) && failed_before(m0, ns, i) == e);
                assert(ns[i].rid == Some(k));
            }
            if retried_job(m0, ns, k) {
                let i = choose|i: int| 0 <= i < ns.len() && failed_row(m0, ns[i]) && ns[i].rid == Some(k);
                let e = failed_before(m0, ns, i) as int;
                assert(failed@[e].1 == k);
            }
        }
        assert forall|i: int| 0 <= i < ns.len() && failed_row(m0, #[trigger] ns[i]) implies {
            let c = m0[ns[i].rid.unwrap()];
            let nid = retry_id(m0, ns, i, base);
            let st = out.starts@[failed_before(m0, ns, i) as int];
            &&& retry_of(fin[nid], c, rid)
            &&& st.0 == nid && st.1@ == c.file_id@ && st.2@ == c.name@ && st.3@ == c.dir@
            &&& Some(out.removed@[failed_before(m0, ns, i) as int]) == ns[i].rid
        } by {
            let e = failed_before(m0, ns, i) as int;
            assert(e < nf);
            let nid = retry_id(m0, ns, i, base);
            assert(nid == (base + 1 + e) as u64);
            assert(nid != rid);
            assert(fin[nid] == mid[nid]);
        }
    }
    out
}

proof fn lemma_failed_before_le(m: Map<u64, DlJob>, ns: Seq<DlNode>, i: int)
    requires
        0 <= i,
    ensures
        failed_before(m, ns, i) <= i,
    decreases i,
{
    if i > 0 {
        lemma_failed_before_le(m, ns, i - 1);
    }
}

/// Adds a download job for one file (of folder job `parent`, if any) under
/// the next id, and returns that id.
pub fn enqueue_download_item(
    jobs: &mut BTreeMap<u64, DlJob>,
    last_id: &mut u64,
    file_id: String,
    name: String,
    dir: String,
    parent: Option<u64>,
) -> (id: u64)
    requires
        *old(last_id) < u64::MAX,
    ensures
        table_ok(old(jobs)@) ==> table_ok(final(jobs)@),
        id == *old(last_id) + 1,
        *final(last_id) == id,
        final(jobs)@.dom() == old(jobs)@.dom().insert(id),
        forall|k: u64| k != id && old(jobs)@.contains_key(k) ==> final(jobs)@[k] == old(jobs)@[k],
        fresh(final(jobs)@[id], file_id, name, dir),
        final(jobs)@[id].folder_id is None,
        final(jobs)@[id].parent == parent,
{
    *last_id = *last_id + 1;
    let id = *last_id;
    let job = match parent {
        Some(p) => DlJob::child(file_id, name, dir, p),
        None => DlJob::queued(file_id, name, dir),
    };
    jobs.insert(id, job);
    id
}

/// Adds a whole-folder download job under the next id (its tree comes once
/// the folder is scanned), and returns that id.
pub fn enqueue_download_folder(
    jobs: &mut BTreeMap<u64, DlJob>,
    last_id: &mut u64,
    folder_id: String,
    name: String,
    dir: String,
) -> (id: u64)
    requires
        *old(last_id) < u64::MAX,
    ensures
        table_ok(old(jobs)@) ==> table_ok(final(jobs)@),
        id == *old(last_id) + 1,
        *final(last_id) == id,
        final(jobs)@.dom() == old(jobs)@.dom().insert(id),
        forall|k: u64| k != id && old(jobs)@.contains_key(k) ==> final(jobs)@[k] == old(jobs)@[k],
        fresh(final(jobs)@[id], folder_id, name, dir),
        final(jobs)@[id].folder_id == Some(folder_id),
        final(jobs)@[id].parent is None,
{
    *last_id = *last_id + 1;
    let id = *last_id;
    jobs.insert(id, DlJob::folder(folder_id, name, dir));
    id
}

/// A copy of a breadcrumb.
pub fn clone_stack(s: &Vec<(Option<String>, String)>) -> (r: Vec<(Option<String>, String)>)
    ensures
        r@ == s@,
{
    let mut r: Vec<(Option<String>, String)> = Vec::new();
    let mut i: usize = 0;
    while i < s.len()
        invariant
            0 <= i <= s@.len(),
            r@ == s@.take(i as int),
        decreases s@.len() - i,
    {
        let id = match &s[i].0 {
            Some(x) => Some(x.clone()),
            None => None,
        };
        r.push((id, s[i].1.clone()));
        proof {
            assert(s@.take(i + 1) == s@.take(i as int).push(s@[i as int]));
        }
        i += 1;
    }
    assert(s@.take(s@.len() as int) == s@);
    r
}

/// The name an upload takes: the path's file name.
fn upload_name(path: &str) -> (r: Option<String>)
    ensures
        match r {
            Some(n) => path_file_name(path@) == Some(n@),
            None => path_file_name(path@) is None,
        },
{
    let cs = chars_of(path);
    match file_name_chars(&cs) {
        Some(n) => Some(string_from_chars(&n)),
        None => None,
    }
}

/// Adds an upload job for a local file (or, with `is_dir`, a directory)
/// into drive folder `parent` under the next id, named by the path's file
/// name. A path without a file name is skipped (`None`).
pub fn enqueue_upload_item(
    ul_jobs: &mut BTreeMap<u64, UlJob>,
    last_id: &mut u64,
    path: String,
    parent: &Option<String>,
    dest_stack: &Vec<(Option<String>, String)>,
    is_dir: bool,
) -> (id: Option<u64>)
    requires
        *old(last_id) < u64::MAX,
    ensures
        path_file_name(path@) is None ==> id is None && final(ul_jobs)@ == old(ul_jobs)@ && *final(last_id)
            == *old(last_id),
        path_file_name(path@) matches Some(name) ==> {
            &&& id == Some((*old(last_id) + 1) as u64)
            &&& *final(last_id) == *old(last_id) + 1
            &&& final(ul_jobs)@.dom() == old(ul_jobs)@.dom().insert(id.unwrap())
            &&& forall|k: u64| k != id.unwrap() && old(ul_jobs)@.contains_key(k) ==> final(ul_jobs)@[k] == old(ul_jobs)@[k]
            &&& ul_fresh(final(ul_jobs)@[id.unwrap()], path@, name, *parent, dest_stack@, is_dir)
        },
{
    let name = match upload_name(path.as_str()) {
        Some(n) => n,
        None => return None,
    };
    *last_id = *last_id + 1;
    let id = *last_id;
    let p = match parent {
        Some(x) => Some(x.clone()),
        None => None,
    };
    let stack = clone_stack(dest_stack);
    let job = if is_dir {
        UlJob::queued_dir(path, name, p, stack)
    } else {
        UlJob::queued(path, name, p, stack)
    };
    ul_jobs.insert(id, job);
    Some(id)
}

/// What taking an upload job off the list asks of the caller.
#[derive(Debug)]
pub struct UlRemoval {
    /// The job to cancel in the transfer worker (an active one only leaves
    /// once the worker reports).
    pub cancel: Option<u64>,
    /// History record to delete: (record id, local path, name).
    pub forget: Option<(String, String, String)>,
    /// Whether the job left the table (drop it from the selection).
    pub removed: bool,
}

/// Takes upload job `rid` off the list: an active one is cancelled; any
/// other leaves with its history record.
pub fn remove_upload_job(ul_jobs: &mut BTreeMap<u64, UlJob>, rid: u64) -> (r: UlRemoval)
    ensures
        old(ul_jobs)@.contains_key(rid) && (old(ul_jobs)@[rid].status is Queued || old(ul_jobs)@[rid].status is Running)
            ==> final(ul_jobs)@ == old(ul_jobs)@ && r.cancel == Some(rid) && r.forget is None && !r.removed,
        !(old(ul_jobs)@.contains_key(rid) && (old(ul_jobs)@[rid].status is Queued || old(ul_jobs)@[rid].status is Running))
            ==> {
            &&& final(ul_jobs)@ == old(ul_jobs)@.remove(rid)
            &&& r.cancel is None
            &&& r.removed
            &&& match r.forget {
                Some(f) => old(ul_jobs)@.contains_key(rid) && f.0@ == old(ul_jobs)@[rid].record_id@ && f.1@
                    == old(ul_jobs)@[rid].local_path@ && f.2@ == old(ul_jobs)@[rid].name@,
                None => !old(ul_jobs)@.contains_key(rid),
            }
        },
{
    let running = match ul_jobs.get(&rid) {
        Some(j) => matches!(j.status, UlStatus::Queued | UlStatus::Running),
        None => false,
    };
    if running {
        return UlRemoval { cancel: Some(rid), forget: None, removed: false };
    }
    let forget = match ul_jobs.get(&rid) {
        Some(j) => Some((j.record_id.clone(), j.local_path.clone(), j.name.clone())),
        None => None,
    };
    ul_jobs.remove(&rid);
    UlRemoval { cancel: None, forget, removed: true }
}

/// What retrying an upload asks of the caller.
#[derive(Debug)]
pub struct UlRetry {
    /// History record to delete: (record id, local path, name).
    pub forget: (String, String, String),
    /// The new job's id (none when the path has no file name), and whether
    /// it uploads a directory.
    pub job: Option<u64>,
    pub is_dir: bool,
    /// Local path and target folder for the worker.
    pub path: String,
    pub parent: Option<String>,
}

/// Retries upload `rid`: the old job and its history record leave, and the
/// same path is queued again, under the next id, into the same folder.
pub fn retry_upload_job(ul_jobs: &mut BTreeMap<u64, UlJob>, rid: u64, last_id: &mut u64) -> (r: Option<UlRetry>)
    requires
        *old(last_id) < u64::MAX,
        forall|k: u64| old(ul_jobs)@.contains_key(k) ==> k <= *old(last_id),
    ensures
        !old(ul_jobs)@.contains_key(rid) ==> r is None && final(ul_jobs)@ == old(ul_jobs)@ && *final(last_id)
            == *old(last_id),
        old(ul_jobs)@.contains_key(rid) ==> {
            let j = old(ul_jobs)@[rid];
            &&& r matches Some(t) && {
                &&& t.forget.0@ == j.record_id@ && t.forget.1@ == j.local_path@ && t.forget.2@ == j.name@
                &&& t.is_dir == j.is_dir
                &&& t.path@ == j.local_path@
                &&& opt_view(t.parent) == opt_view(j.parent)
                &&& match path_file_name(j.local_path@) {
                    None => t.job is None && final(ul_jobs)@ == old(ul_jobs)@.remove(rid) && *final(last_id)
                        == *old(last_id),
                    Some(name) => {
                        &&& t.job == Some((*old(last_id) + 1) as u64)
                        &&& *final(last_id) == *old(last_id) + 1
                        &&& final(ul_jobs)@.dom() == old(ul_jobs)@.dom().remove(rid).insert(t.job.unwrap())
                        &&& forall|k: u64|
                            k != rid && k != t.job.unwrap() && old(ul_jobs)@.contains_key(k) ==> final(ul_jobs)@[k]
                                == old(ul_jobs)@[k]
                        &&& ul_fresh(final(ul_jobs)@[t.job.unwrap()], j.local_path@, name, t.parent, j.dest_stack@, j.is_dir)
                    },
                }
            }
        },
{
    let j = match ul_jobs.remove(&rid) {
        Some(j) => j,
        None => return None,
    };
    let forget = (j.record_id.clone(), j.local_path.clone(), j.name.clone());
    let path = j.local_path.clone();
    let parent = j.parent.clone();
    let is_dir = j.is_dir;
    let id = enqueue_upload_item(ul_jobs, last_id, j.local_path, &parent, &j.dest_stack, is_dir);
    Some(UlRetry { forget, job: id, is_dir, path, parent })
}

/// Takes the rows of job `id` (already out of the table) out of folder job
/// `p`'s tree, and rolls the folder up again; returns the status due for the
/// folder's history record.
pub fn leave_folder(jobs: &mut BTreeMap<u64, DlJob>, p: u64, id: u64) -> (rs: Option<DownloadRecordStatus>)
    requires
        table_ok(old(jobs)@),
        old(jobs)@.contains_key(p),
        p != id,
    ensures
        table_ok(final(jobs)@),
        ({
            let pj = old(jobs)@[p];
            let tree = pj.nodes@.filter(|n: DlNode| n.rid != Some(id));
            &&& final(jobs)@.dom() == old(jobs)@.dom()
            &&& forall|k: u64| k != p && old(jobs)@.contains_key(k) ==> final(jobs)@[k] == old(jobs)@[k]
            &&& if pj.folder_id is Some {
                &&& rolled_up(final(jobs)@[p], pj, tree, old(jobs)@)
                &&& write_due(rs, final(jobs)@[p].status, pj.record_id@)
            } else {
                &&& final(jobs)@[p] == (DlJob { nodes: final(jobs)@[p].nodes, ..pj })
                &&& final(jobs)@[p].nodes@ == tree
                &&& rs is None
            }
        }),
{
    let ghost m0 = jobs@;
    let mut pj = jobs.remove(&p).unwrap();
    let ghost pj0 = pj;
    let mut nodes: Vec<DlNode> = Vec::new();
    std::mem::swap(&mut nodes, &mut pj.nodes);
    pj.nodes = without_row(nodes, id);
    let ghost tree = pj.nodes@;
    proof {
        assert forall|i: int| 0 <= i < tree.len() implies (#[trigger] tree[i]).rid != Some(p) by {
            pj0.nodes@.lemma_filter_contains_rev(|n: DlNode| n.rid != Some(id), tree[i]);
            let w = choose|w: int| 0 <= w < pj0.nodes@.len() && pj0.nodes@[w] == tree[i];
            assert(m0[p].nodes@[w].rid != Some(p));
        }
    }
    jobs.insert(p, pj);
    let ghost m2 = jobs@;
    let write = recompute_folder(jobs, p);
    proof {
        lemma_kids_same_except(m2, m0, p, tree);
        assert(m2[p].nodes@ == tree);
    }
    write
}

proof fn lemma_files_before_mono(cs: Seq<DownloadChildRecord>, a: int, b: int)
    requires
        0 <= a <= b <= cs.len(),
    ensures
        files_before(cs, a) <= files_before(cs, b),
    decreases b - a,
{
    if a < b {
        lemma_files_before_mono(cs, a, b - 1);
        lemma_file_children_take(cs, b - 1);
    }
}

/// Number of file rows in a tree.
pub open spec fn file_rows(ns: Seq<DlNode>) -> nat
    decreases ns.len(),
{
    if ns.len() == 0 {
        0
    } else {
        file_rows(ns.drop_last()) + if !ns.last().is_dir {
            1nat
        } else {
            0nat
        }
    }
}

/// Number of finished file rows in a tree.
pub open spec fn done_rows(ns: Seq<DlNode>) -> nat
    decreases ns.len(),
{
    if ns.len() == 0 {
        0
    } else {
        done_rows(ns.drop_last()) + if !ns.last().is_dir && ns.last().done {
            1nat
        } else {
            0nat
        }
    }
}

proof fn lemma_rows_le(ns: Seq<DlNode>)
    ensures
        done_rows(ns) <= file_rows(ns) <= ns.len(),
    decreases ns.len(),
{
    if ns.len() > 0 {
        lemma_rows_le(ns.drop_last());
    }
}

/// Counts the file rows of a tree, and the finished ones.
fn count_file_rows(nodes: &Vec<DlNode>) -> (r: (usize, usize))
    ensures
        r.0 == file_rows(nodes@),
        r.1 == done_rows(nodes@),
{
    let mut total: usize = 0;
    let mut done: usize = 0;
    let mut i: usize = 0;
    while i < nodes.len()
        invariant
            0 <= i <= nodes@.len(),
            total == file_rows(nodes@.take(i as int)),
            done == done_rows(nodes@.take(i as int)),
        decreases nodes@.len() - i,
    {
        proof {
            assert(nodes@.take(i + 1).drop_last() == nodes@.take(i as int));
            lemma_rows_le(nodes@.take(i as int));
        }
        if !nodes[i].is_dir {
            total = total + 1;
            if nodes[i].done {
                done = done + 1;
            }
        }
        i += 1;
    }
    assert(nodes@.take(nodes@.len() as int) == nodes@);
    (total, done)
}

/// The rows' kinds, depths, job links and done marks are those of the record.
proof fn lemma_rows_count(ns: Seq<DlNode>, cs: Seq<DownloadChildRecord>, first: u64)
    requires
        ns.len() == cs.len(),
        forall|q: int|
            0 <= q < cs.len() ==> node_of_child(
                #[trigger] ns[q],
                cs[q],
                if cs[q].is_dir {
                    None
                } else {
                    Some((first + 1 + files_before(cs, q)) as u64)
                },
            ),
    ensures
        file_rows(ns) == file_children(cs),
        done_rows(ns) == done_children(cs),
    decreases ns.len(),
{
    if ns.len() > 0 {
        let n = (ns.len() - 1) as int;
        let cs2 = cs.drop_last();
        assert forall|q: int|
            0 <= q < cs2.len() implies node_of_child(
            #[trigger] ns.drop_last()[q],
            cs2[q],
            if cs2[q].is_dir {
                None
            } else {
                Some((first + 1 + files_before(cs2, q)) as u64)
            },
        ) by {
            assert(cs2.take(q) == cs.take(q));
            assert(ns.drop_last()[q] == ns[q]);
            assert(node_of_child(ns[q], cs[q], if cs[q].is_dir {
                None
            } else {
                Some((first + 1 + files_before(cs, q)) as u64)
            }));
        }
        lemma_rows_count(ns.drop_last(), cs2, first);
        assert(node_of_child(ns[n], cs[n], if cs[n].is_dir {
            None
        } else {
            Some((first + 1 + files_before(cs, n)) as u64)
        }));
    }
}

/// Subtree ends depend on the depths alone.
proof fn lemma_first_shallow_same(a: Seq<DlNode>, b: Seq<DlNode>, i: int, from: int)
    requires
        a.len() == b.len(),
        0 <= i < a.len(),
        forall|q: int| 0 <= q < a.len() ==> (#[trigger] a[q]).depth == b[q].depth,
    ensures
        crate::jobs::first_shallow(a, i, from) == crate::jobs::first_shallow(b, i, from),
    decreases a.len() - from,
{
    if 0 <= from < a.len() && a[from].depth > a[i].depth {
        lemma_first_shallow_same(a, b, i, from + 1);
    }
}

/// File counts depend on the rows' kinds, job links and done marks alone.
proof fn lemma_count_files_same(a: Seq<DlNode>, b: Seq<DlNode>, lo: int, hi: int, need_done: bool)
    requires
        a.len() == b.len(),
        0 <= lo,
        hi <= a.len(),
        forall|q: int|
            0 <= q < a.len() ==> (#[trigger] a[q]).is_dir == b[q].is_dir && a[q].rid == b[q].rid
                && a[q].done == b[q].done,
    ensures
        count_files(a, lo, hi, need_done) == count_files(b, lo, hi, need_done),
    decreases hi - lo,
{
    if lo < hi {
        lemma_count_files_same(a, b, lo, hi - 1, need_done);
        assert(a[hi - 1].is_dir == b[hi - 1].is_dir);
    }
}

/// After the counts are filled in, the tree's directory rows hold their own
/// subtree counts, and no other field changed.
pub proof fn lemma_counts_filled(raw: Seq<DlNode>, fin: Seq<DlNode>)
    requires
        fin.len() == raw.len(),
        raw.len() <= usize::MAX,
        forall|q: int| 0 <= q < raw.len() ==> #[trigger] fin[q] == counted_row(raw, q),
    ensures
        counts_filled(fin),
        forall|q: int|
            0 <= q < raw.len() ==> (#[trigger] fin[q]).is_dir == raw[q].is_dir && fin[q].name == raw[q].name
                && fin[q].depth == raw[q].depth && fin[q].rid == raw[q].rid && fin[q].expanded
                == raw[q].expanded && fin[q].done == raw[q].done,
        forall|q: int| 0 <= q < raw.len() && !(#[trigger] raw[q]).is_dir ==> fin[q] == raw[q],
{
    assert forall|q: int|
        0 <= q < raw.len() implies (#[trigger] fin[q]).is_dir == raw[q].is_dir && fin[q].name
        == raw[q].name && fin[q].depth == raw[q].depth && fin[q].rid == raw[q].rid
        && fin[q].expanded == raw[q].expanded && fin[q].done == raw[q].done by {
        assert(fin[q] == counted_row(raw, q));
    }
    assert forall|k: int|
        0 <= k < fin.len() && (#[trigger] fin[k]).is_dir implies fin[k].files_done == count_files(
        fin,
        k + 1,
        subtree_end(fin, k),
        true,
    ) && fin[k].files_total == count_files(fin, k + 1, subtree_end(fin, k), false) by {
        assert(fin[k] == counted_row(raw, k));
        lemma_first_shallow_same(fin, raw, k, k + 1);
        crate::jobs::lemma_subtree_rows(raw, k, k);
        lemma_count_files_same(fin, raw, k + 1, subtree_end(raw, k), true);
        lemma_count_files_same(fin, raw, k + 1, subtree_end(raw, k), false);
        crate::jobs::lemma_first_shallow(raw, k, k + 1);
        crate::jobs::lemma_count_files_le(raw, k + 1, subtree_end(raw, k), true);
        crate::jobs::lemma_count_files_le(raw, k + 1, subtree_end(raw, k), false);
    }
}

} // verus!
