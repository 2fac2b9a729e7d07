//! Selecting transfer jobs on the transfer page: plain, ctrl and shift
//! clicks (a shift click selects the run of visible jobs from the last
//! clicked one), the "select all" box, and the bulk actions on a selection.

use std::collections::BTreeMap;

use vstd::prelude::*;

use crate::jobs::{DlJob, DlStatus, UlJob, UlStatus};

verus! {

broadcast use vstd::std_specs::btree::group_btree_axioms;

/// A click on a job card.
#[derive(Debug, Clone, Copy, PartialEq, Eq)]
pub enum Click {
    /// A plain click: only this job.
    Replace(u64),
    /// A ctrl click: this job flips.
    Toggle(u64),
    /// A shift click: the run from the last clicked job to this one.
    Range(u64),
}

/// The state of the "select all" box.
#[derive(Debug, Clone, Copy, PartialEq, Eq)]
pub enum CheckState {
    Unchecked,
    Partial,
    Checked,
}

/// The selected jobs (no repeats) and the last one clicked.
#[derive(Debug, Clone)]
pub struct JobSelection {
    pub ids: Vec<u64>,
    pub anchor: Option<u64>,
}

/// Whether no id occurs twice.
pub open spec fn no_repeats(s: Seq<u64>) -> bool {
    forall|a: int, b: int| 0 <= a < b < s.len() ==> s[a] != s[b]
}

/// The first position of `x` in `v`, or 0 when it is not there.
pub open spec fn pos_or_zero(v: Seq<u64>, x: u64) -> int {
    if v.contains(x) {
        choose|i: int| 0 <= i < v.len() && v[i] == x && forall|j: int| 0 <= j < i ==> v[j] != x
    } else {
        0
    }
}

/// Whether `x` lies in the run of `visible` between positions `a` and `b` (either order).
pub open spec fn in_run(visible: Seq<u64>, a: int, b: int, x: u64) -> bool {
    let lo = if a <= b { a } else { b };
    let hi = if a <= b { b } else { a };
    exists|i: int| lo <= i <= hi && 0 <= i < visible.len() && visible[i] == x
}

/// Whether `x` is selected after click `c` on the jobs `visible` (in the
/// order shown), with ctrl held or not.
pub open spec fn selected_after(sel: Seq<u64>, anchor: Option<u64>, visible: Seq<u64>, c: Click, ctrl: bool, x: u64) -> bool {
    match c {
        Click::Replace(r) => x == r,
        Click::Toggle(r) => if x == r {
            !sel.contains(r)
        } else {
            sel.contains(x)
        },
        Click::Range(r) => match anchor {
            Some(a) => (ctrl && sel.contains(x)) || in_run(visible, pos_or_zero(visible, a), pos_or_zero(visible, r), x),
            None => x == r,
        },
    }
}

/// The job a click is on.
pub open spec fn clicked(c: Click) -> u64 {
    match c {
        Click::Replace(r) => r,
        Click::Toggle(r) => r,
        Click::Range(r) => r,
    }
}

fn position_or_zero(v: &[u64], x: u64) -> (r: usize)
    ensures
        r as int == pos_or_zero(v@, x),
        v@.len() > 0 ==> r < v@.len(),
{
    let mut i: usize = 0;
    while i < v.len()
        invariant
            0 <= i <= v@.len(),
            forall|j: int| 0 <= j < i ==> v@[j] != x,
        decreases v@.len() - i,
    {
        if v[i] == x {
            proof {
                let ii = i as int;
                assert(v@.contains(x)) by {
                    assert(v@[ii] == x);
                }
                assert(0 <= ii < v@.len() && v@[ii] == x && forall|j: int| 0 <= j < ii ==> v@[j] != x);
                let w = choose|w: int| 0 <= w < v@.len() && v@[w] == x && forall|j: int| 0 <= j < w ==> v@[j] != x;
                if w < ii {
                    assert(v@[w] != x);
                }
                if w > ii {
                    assert(v@[ii] != x);
                }
            }
            return i;
        }
        i += 1;
    }
    proof {
        if v@.contains(x) {
            let j = choose|j: int| 0 <= j < v@.len() && v@[j] == x;
            assert(v@[j] != x);
        }
    }
    0
}

fn has_u64(v: &Vec<u64>, x: u64) -> (b: bool)
    ensures
        b == v@.contains(x),
{
    let mut i: usize = 0;
    while i < v.len()
        invariant
            0 <= i <= v@.len(),
            forall|j: int| 0 <= j < i ==> v@[j] != x,
        decreases v@.len() - i,
    {
        if v[i] == x {
            proof {
                assert(v@[i as int] == x);
            }
            return true;
        }
        i += 1;
    }
    false
}

/// Adds `x` unless it is there.
fn add_u64(v: &mut Vec<u64>, x: u64)
    requires
        no_repeats(old(v)@),
    ensures
        no_repeats(final(v)@),
        forall|y: u64| #[trigger] final(v)@.contains(y) <==> (old(v)@.contains(y) || y == x),
{
    if has_u64(v, x) {
        return;
    }
    v.push(x);
    proof {
        let o = old(v)@;
        assert forall|y: u64| #[trigger] v@.contains(y) <==> (o.contains(y) || y == x) by {
            if o.contains(y) {
                let k = choose|k: int| 0 <= k < o.len() && o[k] == y;
                assert(v@[k] == y);
            }
            if y == x {
                assert(v@[o.len() as int] == y);
            }
            if v@.contains(y) {
                let k = choose|k: int| 0 <= k < v@.len() && v@[k] == y;
                if k < o.len() {
                    assert(o[k] == y);
                }
            }
        }
    }
}

/// Keeps the ids that `keep` holds (or, with `inverse`, those it does not).
fn retain_u64(v: &mut Vec<u64>, keep: &[u64], inverse: bool)
    requires
        no_repeats(old(v)@),
    ensures
        no_repeats(final(v)@),
        forall|y: u64| #[trigger] final(v)@.contains(y) <==> (old(v)@.contains(y) && (keep@.contains(y) != inverse)),
{
    let ghost o = v@;
    let mut out: Vec<u64> = Vec::new();
    let mut i: usize = 0;
    while i < v.len()
        invariant
            0 <= i <= v@.len(),
            v@ == o,
            no_repeats(o),
            no_repeats(out@),
            forall|y: u64| #[trigger] out@.contains(y) <==> (exists|j: int| 0 <= j < i && o[j] == y) && (keep@.contains(y) != inverse),
            forall|a: int| 0 <= a < out@.len() ==> exists|j: int| 0 <= j < i && o[j] == #[trigger] out@[a],
        decreases v@.len() - i,
    {
        let x = v[i];
        let mut hit = false;
        let mut k: usize = 0;
        while k < keep.len()
            invariant
                0 <= k <= keep@.len(),
                hit == (exists|q: int| 0 <= q < k && keep@[q] == x),
            decreases keep@.len() - k,
        {
            if keep[k] == x {
                hit = true;
            }
            k += 1;
        }
        proof {
            if keep@.contains(x) {
                let q = choose|q: int| 0 <= q < keep@.len() && keep@[q] == x;
                assert(0 <= q < k && keep@[q] == x);
            }
        }
        let ghost before = out@;
        if hit != inverse {
            out.push(x);
            proof {
                assert forall|a: int, b: int| 0 <= a < b < out@.len() implies out@[a] != out@[b] by {
                    if b == before.len() {
                        let j = choose|j: int| 0 <= j < i && o[j] == #[trigger] before[a];
                        assert(o[j] != o[i as int]);
                    }
                }
            }
        }
        proof {
            assert forall|y: u64| #[trigger] out@.contains(y) <==> (exists|j: int| 0 <= j < i + 1 && o[j] == y) && (
            keep@.contains(y) != inverse) by {
                if out@.contains(y) {
                    let a = choose|a: int| 0 <= a < out@.len() && out@[a] == y;
                    if a < before.len() {
                        assert(before.contains(y));
                        let j = choose|j: int| 0 <= j < i && o[j] == y;
                        assert(0 <= j < i + 1 && o[j] == y);
                    } else {
                        assert(y == x);
                        assert(0 <= i < i + 1 && o[i as int] == y);
                    }
                }
                if (exists|j: int| 0 <= j < i + 1 && o[j] == y) && (keep@.contains(y) != inverse) {
                    let j = choose|j: int| 0 <= j < i + 1 && o[j] == y;
                    if j < i {
                        assert(before.contains(y));
                        let a = choose|a: int| 0 <= a < before.len() && before[a] == y;
                        assert(out@[a] == y);
                    } else {
                        assert(out@[before.len() as int] == y);
                    }
                }
            }
            assert forall|a: int| 0 <= a < out@.len() implies exists|j: int| 0 <= j < i + 1 && o[j] == #[trigger] out@[a] by {
                if a < before.len() {
                    let j = choose|j: int| 0 <= j < i && o[j] == #[trigger] before[a];
                    assert(o[j] == out@[a]);
                } else {
                    assert(o[i as int] == out@[a]);
                }
            }
        }
        i += 1;
    }
    proof {
        assert forall|y: u64| #[trigger] out@.contains(y) <==> (o.contains(y) && (keep@.contains(y) != inverse)) by {
            if o.contains(y) {
                let j = choose|j: int| 0 <= j < o.len() && o[j] == y;
                assert(exists|j: int| 0 <= j < i && o[j] == y);
            }
        }
    }
    *v = out;
}

impl JobSelection {
    /// Nothing selected, nothing clicked.
    pub fn new() -> (s: JobSelection)
        ensures
            s.ids@.len() == 0,
            s.anchor is None,
    {
        JobSelection { ids: Vec::new(), anchor: None }
    }

    /// Nothing selected, nothing clicked (a filter changed, or "deselect").
    pub fn clear(&mut self)
        ensures
            final(self).ids@.len() == 0,
            final(self).anchor is None,
    {
        self.ids = Vec::new();
        self.anchor = None;
    }

    /// Applies click `c` on the jobs `visible` (in the order shown); the
    /// clicked job becomes the anchor of the next shift click.
    pub fn click(&mut self, visible: &[u64], c: Click, ctrl: bool)
        requires
            no_repeats(old(self).ids@),
        ensures
            no_repeats(final(self).ids@),
            forall|x: u64| #[trigger] final(self).ids@.contains(x) <==> selected_after(
                old(self).ids@,
                old(self).anchor,
                visible@,
                c,
                ctrl,
                x,
            ),
            final(self).anchor == Some(clicked(c)),
    {
        match c {
            Click::Replace(r) => {
                self.ids = vec![r];
                proof {
                    assert forall|x: u64| #[trigger] self.ids@.contains(x) <==> x == r by {
                        if x == r {
                            assert(self.ids@[0] == x);
                        }
                    }
                }
            },
            Click::Toggle(r) => {
                if has_u64(&self.ids, r) {
                    let one = [r];
                    retain_u64(&mut self.ids, &one, true);
                    proof {
                        assert forall|y: u64| one@.contains(y) <==> y == r by {
                            if y == r {
                                assert(one@[0] == y);
                            }
                        }
                    }
                } else {
                    add_u64(&mut self.ids, r);
                }
            },
            Click::Range(r) => {
                match self.anchor {
                    Some(a) => {
                        let start = position_or_zero(visible, a);
                        let end = position_or_zero(visible, r);
                        let (from, to) = if start <= end {
                            (start, end)
                        } else {
                            (end, start)
                        };
                        if !ctrl {
                            self.ids = Vec::new();
                        }
                        let ghost base = self.ids@;
                        let mut i = from;
                        while i <= to && i < visible.len()
                            invariant
                                from <= i <= to + 1,
                                from <= to,
                                visible@.len() > 0 ==> to < visible@.len(),
                                from as int == (if pos_or_zero(visible@, a) <= pos_or_zero(visible@, r) {
                                    pos_or_zero(visible@, a)
                                } else {
                                    pos_or_zero(visible@, r)
                                }),
                                to as int == (if pos_or_zero(visible@, a) <= pos_or_zero(visible@, r) {
                                    pos_or_zero(visible@, r)
                                } else {
                                    pos_or_zero(visible@, a)
                                }),
                                no_repeats(self.ids@),
                                no_repeats(base),
                                forall|x: u64| #[trigger] self.ids@.contains(x) <==> (base.contains(x) || exists|k: int|
                                    from <= k < i && 0 <= k < visible@.len() && visible@[k] == x),
                            decreases visible@.len() - i,
                        {
                            let ghost before = self.ids@;
                            add_u64(&mut self.ids, visible[i]);
                            proof {
                                assert forall|x: u64| #[trigger] self.ids@.contains(x) <==> (base.contains(x) || exists|k: int|
                                    from <= k < i + 1 && 0 <= k < visible@.len() && visible@[k] == x) by {
                                    if exists|k: int| from <= k < i + 1 && 0 <= k < visible@.len() && visible@[k] == x {
                                        let k = choose|k: int| from <= k < i + 1 && 0 <= k < visible@.len() && visible@[k] == x;
                                        if k < i {
                                            assert(before.contains(x));
                                        }
                                    }
                                    if before.contains(x) && !base.contains(x) {
                                        let k = choose|k: int| from <= k < i && 0 <= k < visible@.len() && visible@[k] == x;
                                        assert(from <= k < i + 1);
                                    }
                                    if x == visible@[i as int] {
                                        assert(from <= i < i + 1 && 0 <= i < visible@.len() && visible@[i as int] == x);
                                    }
                                }
                            }
                            i += 1;
                        }
                        proof {
                            let lo = pos_or_zero(visible@, a);
                            let hi = pos_or_zero(visible@, r);
                            assert forall|x: u64| #[trigger] self.ids@.contains(x) <==> selected_after(
                                old(self).ids@,
                                old(self).anchor,
                                visible@,
                                c,
                                ctrl,
                                x,
                            ) by {
                                if exists|k: int| from <= k < i && 0 <= k < visible@.len() && visible@[k] == x {
                                    let k = choose|k: int| from <= k < i && 0 <= k < visible@.len() && visible@[k] == x;
                                    assert(in_run(visible@, lo, hi, x));
                                }
                                if in_run(visible@, lo, hi, x) {
                                    let k = choose|k: int| (if lo <= hi { lo } else { hi }) <= k <= (if lo <= hi { hi } else { lo })
                                        && 0 <= k < visible@.len() && visible@[k] == x;
                                    assert(from <= k < i);
                                }
                            }
                        }
                    },
                    None => {
                        self.ids = vec![r];
                        proof {
                            assert forall|x: u64| #[trigger] self.ids@.contains(x) <==> x == r by {
                                if x == r {
                                    assert(self.ids@[0] == x);
                                }
                            }
                        }
                    },
                }
            },
        }
        self.anchor = Some(
            match c {
                Click::Replace(r) => r,
                Click::Toggle(r) => r,
                Click::Range(r) => r,
            },
        );
    }

    /// Drops the selected jobs that are no longer shown (a running job that
    /// finished under the "active" filter, say).
    pub fn keep_visible(&mut self, visible: &[u64])
        requires
            no_repeats(old(self).ids@),
        ensures
            no_repeats(final(self).ids@),
            forall|x: u64| #[trigger] final(self).ids@.contains(x) <==> (old(self).ids@.contains(x) && visible@.contains(x)),
            final(self).anchor == old(self).anchor,
    {
        retain_u64(&mut self.ids, visible, false);
    }

    /// How many shown jobs are selected.
    pub fn count_visible(&self, visible: &[u64]) -> (n: usize)
        ensures
            n == visible@.filter(|x: u64| self.ids@.contains(x)).len(),
    {
        let ghost pred = |x: u64| self.ids@.contains(x);
        let mut n: usize = 0;
        let mut i: usize = 0;
        while i < visible.len()
            invariant
                0 <= i <= visible@.len(),
                pred == (|x: u64| self.ids@.contains(x)),
                n == visible@.take(i as int).filter(pred).len(),
                n <= i,
            decreases visible@.len() - i,
        {
            proof {
                assert(visible@.take(i + 1) == visible@.take(i as int).push(visible@[i as int]));
                visible@.take(i as int).lemma_filter_push(visible@[i as int], pred);
            }
            if has_u64(&self.ids, visible[i]) {
                n += 1;
            }
            i += 1;
        }
        proof {
            assert(visible@.take(i as int) == visible@);
        }
        n
    }

    /// The "select all" box over the shown jobs: unticked when none of them
    /// is selected, ticked when all are, partly ticked otherwise.
    pub fn master_state(&self, visible: &[u64]) -> (s: CheckState)
        ensures
            ({
                let n = visible@.filter(|x: u64| self.ids@.contains(x)).len();
                s == (if visible@.len() == 0 || n == 0 {
                    CheckState::Unchecked
                } else if n >= visible@.len() {
                    CheckState::Checked
                } else {
                    CheckState::Partial
                })
            }),
    {
        let n = self.count_visible(visible);
        if visible.len() == 0 || n == 0 {
            CheckState::Unchecked
        } else if n >= visible.len() {
            CheckState::Checked
        } else {
            CheckState::Partial
        }
    }

    /// A click on the "select all" box: when it was ticked, the shown jobs
    /// are unselected; otherwise they are all selected.
    pub fn master_click(&mut self, visible: &[u64])
        requires
            no_repeats(old(self).ids@),
        ensures
            no_repeats(final(self).ids@),
            ({
                let n = visible@.filter(|x: u64| old(self).ids@.contains(x)).len();
                let ticked = visible@.len() > 0 && n > 0 && n >= visible@.len();
                forall|x: u64| #[trigger] final(self).ids@.contains(x) <==> (if ticked {
                    old(self).ids@.contains(x) && !visible@.contains(x)
                } else {
                    old(self).ids@.contains(x) || visible@.contains(x)
                })
            }),
            final(self).anchor == old(self).anchor,
    {
        let st = self.master_state(visible);
        match st {
            CheckState::Checked => {
                retain_u64(&mut self.ids, visible, true);
            },
            _ => {
                let ghost base = self.ids@;
                let mut i: usize = 0;
                while i < visible.len()
                    invariant
                        0 <= i <= visible@.len(),
                        no_repeats(self.ids@),
                        forall|x: u64| #[trigger] self.ids@.contains(x) <==> (base.contains(x) || exists|k: int|
                            0 <= k < i && visible@[k] == x),
                        self.anchor == old(self).anchor,
                    decreases visible@.len() - i,
                {
                    let ghost before = self.ids@;
                    add_u64(&mut self.ids, visible[i]);
                    proof {
                        assert forall|x: u64| #[trigger] self.ids@.contains(x) <==> (base.contains(x) || exists|k: int|
                            0 <= k < i + 1 && visible@[k] == x) by {
                            if exists|k: int| 0 <= k < i + 1 && visible@[k] == x {
                                let k = choose|k: int| 0 <= k < i + 1 && visible@[k] == x;
                                if k < i {
                                    assert(before.contains(x));
                                }
                            }
                            if before.contains(x) && !base.contains(x) {
                                let k = choose|k: int| 0 <= k < i && visible@[k] == x;
                                assert(0 <= k < i + 1);
                            }
                            if x == visible@[i as int] {
                                assert(0 <= i < i + 1 && visible@[i as int] == x);
                            }
                        }
                    }
                    i += 1;
                }
                proof {
                    assert forall|x: u64| #[trigger] self.ids@.contains(x) <==> (base.contains(x) || visible@.contains(x)) by {
                        if visible@.contains(x) {
                            let k = choose|k: int| 0 <= k < visible@.len() && visible@[k] == x;
                            assert(0 <= k < i && visible@[k] == x);
                        }
                    }
                }
            },
        }
    }
}

/// The selected downloads that can be retried: failed, with a known drive
/// file id.
pub fn retryable_downloads(jobs: &BTreeMap<u64, DlJob>, sel: &[u64]) -> (r: Vec<u64>)
    ensures
        r@ == sel@.filter(|id: u64| jobs@.contains_key(id) && jobs@[id].file_id@.len() > 0 && jobs@[id].status is Failed),
{
    let ghost pred = |id: u64| jobs@.contains_key(id) && jobs@[id].file_id@.len() > 0 && jobs@[id].status is Failed;
    let mut r: Vec<u64> = Vec::new();
    let mut i: usize = 0;
    while i < sel.len()
        invariant
            0 <= i <= sel@.len(),
            pred == (|id: u64| jobs@.contains_key(id) && jobs@[id].file_id@.len() > 0 && jobs@[id].status is Failed),
            r@ == sel@.take(i as int).filter(pred),
        decreases sel@.len() - i,
    {
        proof {
            assert(sel@.take(i + 1) == sel@.take(i as int).push(sel@[i as int]));
            sel@.take(i as int).lemma_filter_push(sel@[i as int], pred);
        }
        let id = sel[i];
        let ok = match jobs.get(&id) {
            Some(j) => !j.file_id.as_str().is_empty() && matches!(j.status, DlStatus::Failed(_)),
            None => false,
        };
        if ok {
            r.push(id);
        }
        i += 1;
    }
    proof {
        assert(sel@.take(i as int) == sel@);
    }
    r
}

/// The selected uploads that can be retried: the failed ones.
pub fn retryable_uploads(jobs: &BTreeMap<u64, UlJob>, sel: &[u64]) -> (r: Vec<u64>)
    ensures
        r@ == sel@.filter(|id: u64| jobs@.contains_key(id) && jobs@[id].status is Failed),
{
    let ghost pred = |id: u64| jobs@.contains_key(id) && jobs@[id].status is Failed;
    let mut r: Vec<u64> = Vec::new();
    let mut i: usize = 0;
    while i < sel.len()
        invariant
            0 <= i <= sel@.len(),
            pred == (|id: u64| jobs@.contains_key(id) && jobs@[id].status is Failed),
            r@ == sel@.take(i as int).filter(pred),
        decreases sel@.len() - i,
    {
        proof {
            assert(sel@.take(i + 1) == sel@.take(i as int).push(sel@[i as int]));
            sel@.take(i as int).lemma_filter_push(sel@[i as int], pred);
        }
        let id = sel[i];
        let ok = match jobs.get(&id) {
            Some(j) => matches!(j.status, UlStatus::Failed(_)),
            None => false,
        };
        if ok {
            r.push(id);
        }
        i += 1;
    }
    proof {
        assert(sel@.take(i as int) == sel@);
    }
    r
}

/// What "remove selected" does to one selected download.
#[derive(Debug, Clone, Copy, PartialEq, Eq)]
pub enum BulkOp {
    /// It is queued or running: cancel it.
    Cancel(u64),
    /// Otherwise: remove it from the list.
    Remove(u64),
}

/// Whether a selected download is queued or running.
pub open spec fn is_moving(jobs: Map<u64, DlJob>, id: u64) -> bool {
    jobs.contains_key(id) && (jobs[id].status is Queued || jobs[id].status is Running)
}

/// "Remove selected" on downloads: moving jobs are cancelled, the others removed.
pub fn removal_ops(jobs: &BTreeMap<u64, DlJob>, sel: &[u64]) -> (r: Vec<BulkOp>)
    ensures
        r@.len() == sel@.len(),
        forall|i: int|
            0 <= i < sel@.len() ==> #[trigger] r@[i] == (if is_moving(jobs@, sel@[i]) {
                BulkOp::Cancel(sel@[i])
            } else {
                BulkOp::Remove(sel@[i])
            }),
{
    let mut r: Vec<BulkOp> = Vec::new();
    let mut i: usize = 0;
    while i < sel.len()
        invariant
            0 <= i <= sel@.len(),
            r@.len() == i,
            forall|k: int|
                0 <= k < i ==> #[trigger] r@[k] == (if is_moving(jobs@, sel@[k]) {
                    BulkOp::Cancel(sel@[k])
                } else {
                    BulkOp::Remove(sel@[k])
                }),
        decreases sel@.len() - i,
    {
        let id = sel[i];
        let moving = match jobs.get(&id) {
            Some(j) => matches!(j.status, DlStatus::Queued | DlStatus::Running),
            None => false,
        };
        r.push(if moving {
            BulkOp::Cancel(id)
        } else {
            BulkOp::Remove(id)
        });
        i += 1;
    }
    r
}

/// "Clear finished" on downloads: the finished top-level jobs.
pub fn finished_downloads(jobs: &BTreeMap<u64, DlJob>) -> (r: Vec<u64>)
    ensures
        forall|k: u64| #[trigger] r@.contains(k) <==> (jobs@.contains_key(k) && jobs@[k].parent is None
            && jobs@[k].status is Done),
{
    let mut r: Vec<u64> = Vec::new();
    for kv in it: jobs.iter()
        invariant
            it.seq().len() == jobs@.dom().len(),
            forall|x: int|
                0 <= x < it.seq().len() ==> jobs@.contains_key(*(#[trigger] it.seq()[x]).0)
                    && jobs@[*it.seq()[x].0] == *it.seq()[x].1,
            forall|k: u64| jobs@.contains_key(k) ==> it.seq().contains((&k, &jobs@[k])),
            forall|k: u64| #[trigger] r@.contains(k) ==> (jobs@.contains_key(k) && jobs@[k].parent is None
                && jobs@[k].status is Done),
            forall|x: int|
                0 <= x < it.index() && (*it.seq()[x].1).parent is None && (*it.seq()[x].1).status is Done
                    ==> r@.contains(*(#[trigger] it.seq()[x]).0),
    {
        let (k, j) = kv;
        proof {
            assert(kv == it.seq()[it.index()]);
        }
        let ghost r0 = r@;
        if j.parent.is_none() && matches!(j.status, DlStatus::Done) {
            r.push(*k);
            proof {
                assert(r@[r@.len() - 1] == *k);
                assert forall|q: u64| r0.contains(q) implies r@.contains(q) by {
                    let w = choose|w: int| 0 <= w < r0.len() && r0[w] == q;
                    assert(r@[w] == q);
                }
                assert forall|q: u64| #[trigger] r@.contains(q) implies (jobs@.contains_key(q) && jobs@[q].parent is None
                    && jobs@[q].status is Done) by {
                    let w = choose|w: int| 0 <= w < r@.len() && r@[w] == q;
                    if w < r0.len() {
                        assert(r0[w] == q);
                        assert(r0.contains(q));
                    }
                }
            }
        }
    }
    r
}

/// "Clear finished" on uploads: the finished jobs.
pub fn finished_uploads(jobs: &BTreeMap<u64, UlJob>) -> (r: Vec<u64>)
    ensures
        forall|k: u64| #[trigger] r@.contains(k) <==> (jobs@.contains_key(k) && jobs@[k].status is Done),
{
    let mut r: Vec<u64> = Vec::new();
    for kv in it: jobs.iter()
        invariant
            it.seq().len() == jobs@.dom().len(),
            forall|x: int|
                0 <= x < it.seq().len() ==> jobs@.contains_key(*(#[trigger] it.seq()[x]).0)
                    && jobs@[*it.seq()[x].0] == *it.seq()[x].1,
            forall|k: u64| jobs@.contains_key(k) ==> it.seq().contains((&k, &jobs@[k])),
            forall|k: u64| #[trigger] r@.contains(k) ==> (jobs@.contains_key(k) && jobs@[k].status is Done),
            forall|x: int|
                0 <= x < it.index() && (*it.seq()[x].1).status is Done ==> r@.contains(*(#[trigger] it.seq()[x]).0),
    {
        let (k, j) = kv;
        proof {
            assert(kv == it.seq()[it.index()]);
        }
        let ghost r0 = r@;
        if matches!(j.status, UlStatus::Done) {
            r.push(*k);
            proof {
                assert(r@[r@.len() - 1] == *k);
                assert forall|q: u64| r0.contains(q) implies r@.contains(q) by {
                    let w = choose|w: int| 0 <= w < r0.len() && r0[w] == q;
                    assert(r@[w] == q);
                }
                assert forall|q: u64| #[trigger] r@.contains(q) implies (jobs@.contains_key(q) && jobs@[q].status is Done) by {
                    let w = choose|w: int| 0 <= w < r@.len() && r@[w] == q;
                    if w < r0.len() {
                        assert(r0[w] == q);
                        assert(r0.contains(q));
                    }
                }
            }
        }
    }
    r
}

} // verus!
