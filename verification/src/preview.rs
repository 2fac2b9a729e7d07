//! Previewing a drive file: audio and video are streamed to the player,
//! anything else is first downloaded to the preview cache. One preview is
//! prepared at a time; messages about an older one are ignored. The quality
//! choices of a media file are asked for once and kept.

use vstd::prelude::*;

use crate::filetypes::FileType;
use crate::format::NoticeKind;
use crate::msg::QualityOption;
use crate::tasks::{kdistinct, kfind, kget, kput, kset};
use crate::text::{push_str, str_eq, string_from_chars};

verus! {

/// Above this size (64 MiB) a file that must be downloaded whole to be
/// previewed is only fetched after the user confirms.
pub const PREVIEW_CONFIRM_BYTES: i64 = 67108864;

/// Whether previewing a file of `size` bytes asks the user first: it is
/// large and not in the preview cache yet.
pub fn needs_confirm(size: i64, cached: bool) -> (b: bool)
    ensures
        b == (size > PREVIEW_CONFIRM_BYTES && !cached),
{
    size > PREVIEW_CONFIRM_BYTES && !cached
}

/// Download progress of the preview being prepared.
#[derive(Debug, Clone)]
pub struct PreviewProgress {
    pub req_id: u64,
    pub name: String,
    pub total: u64,
    pub done: u64,
}

/// The quality choices of a media file, with the local subtitle files.
#[derive(Debug, Clone)]
pub struct QualityReady {
    pub options: Vec<QualityOption>,
    pub subs: Vec<String>,
}

/// The preview being prepared, and the quality choices known.
#[derive(Debug)]
pub struct Previews {
    /// The request being prepared, and its file's name.
    pub pending: Option<(u64, String)>,
    pub progress: Option<PreviewProgress>,
    /// Quality choices by file id.
    pub qualities: Vec<(String, QualityReady)>,
    /// Files whose quality choices are on their way.
    pub inflight: Vec<String>,
}

/// A preview request: whether the file is played (audio or video) rather
/// than opened, and whether subtitles of the same episode go with it (video).
#[derive(Debug, Clone, Copy, PartialEq, Eq)]
pub struct PreviewStart {
    pub media: bool,
    pub with_subtitles: bool,
}

/// Whether request `req` is the pending one.
pub open spec fn is_pending(pending: Option<(u64, String)>, req: u64) -> bool {
    match pending {
        Some(p) => p.0 == req,
        None => false,
    }
}

/// Whether `id` is among `v`.
pub open spec fn listed(v: Seq<String>, id: Seq<char>) -> bool {
    exists|k: int| 0 <= k < v.len() && v[k]@ == id
}

impl Previews {
    /// Nothing prepared, nothing known.
    pub fn new() -> (p: Previews)
        ensures
            p.pending is None,
            p.progress is None,
            p.qualities@.len() == 0,
            p.inflight@.len() == 0,
            p.wf(),
    {
        Previews { pending: None, progress: None, qualities: Vec::new(), inflight: Vec::new() }
    }

    /// No file has two entries of quality choices.
    pub open spec fn wf(&self) -> bool {
        kdistinct(self.qualities@)
    }

    /// Starts preparing request `req_id` for a file named `name` of type
    /// `ft`; it replaces any earlier one.
    pub fn start(&mut self, req_id: u64, name: String, ft: FileType) -> (s: PreviewStart)
        ensures
            final(self).pending == Some((req_id, name)),
            s.media == (ft == FileType::Video || ft == FileType::Audio),
            s.with_subtitles == (ft == FileType::Video),
            final(self).progress == old(self).progress,
            final(self).qualities@ == old(self).qualities@,
            final(self).inflight@ == old(self).inflight@,
    {
        self.pending = Some((req_id, name));
        let media = match ft {
            FileType::Video | FileType::Audio => true,
            _ => false,
        };
        let with_subtitles = match ft {
            FileType::Video => true,
            _ => false,
        };
        PreviewStart { media, with_subtitles }
    }

    /// Download progress of request `req_id`: shown only for the pending request.
    pub fn progress(&mut self, req_id: u64, total: u64, done: u64)
        ensures
            match old(self).pending {
                Some(q) => q.0 == req_id ==> (final(self).progress matches Some(p) && p.req_id == req_id
                    && p.name@ == q.1@ && p.total == total && p.done == done),
                None => true,
            },
            !is_pending(old(self).pending, req_id) ==> final(self).progress == old(self).progress,
            final(self).pending == old(self).pending,
            final(self).qualities@ == old(self).qualities@,
            final(self).inflight@ == old(self).inflight@,
    {
        let name = match &self.pending {
            Some((id, name)) => if *id == req_id {
                Some(name.clone())
            } else {
                None
            },
            None => None,
        };
        if let Some(name) = name {
            self.progress = Some(PreviewProgress { req_id, name, total, done });
        }
    }

    /// Request `req_id` ended (streamed, downloaded or failed): it stops
    /// being pending and its progress goes, an older one's message changes
    /// nothing.
    pub fn ended(&mut self, req_id: u64)
        ensures
            final(self).pending == (if is_pending(old(self).pending, req_id) {
                None
            } else {
                old(self).pending
            }),
            final(self).progress == (match old(self).progress {
                Some(p) => if p.req_id == req_id {
                    None
                } else {
                    old(self).progress
                },
                None => None,
            }),
            final(self).qualities@ == old(self).qualities@,
            final(self).inflight@ == old(self).inflight@,
    {
        let clear_pending = match &self.pending {
            Some((id, _)) => *id == req_id,
            None => false,
        };
        if clear_pending {
            self.pending = None;
        }
        let clear_progress = match &self.progress {
            Some(p) => p.req_id == req_id,
            None => false,
        };
        if clear_progress {
            self.progress = None;
        }
    }

    /// Cancels the download being shown: returns the request to cancel,
    /// which also stops being pending.
    pub fn cancel(&mut self) -> (r: Option<u64>)
        ensures
            match old(self).progress {
                Some(p) => {
                    &&& r == Some(p.req_id)
                    &&& final(self).progress is None
                    &&& final(self).pending == (if is_pending(old(self).pending, p.req_id) {
                        None
                    } else {
                        old(self).pending
                    })
                },
                None => r is None && final(self).progress is None && final(self).pending == old(self).pending,
            },
            final(self).qualities@ == old(self).qualities@,
            final(self).inflight@ == old(self).inflight@,
    {
        let p = match self.progress.take() {
            Some(p) => p,
            None => return None,
        };
        let clear = match &self.pending {
            Some((id, _)) => *id == p.req_id,
            None => false,
        };
        if clear {
            self.pending = None;
        }
        Some(p.req_id)
    }

    /// Asks for the quality choices of `id`, unless they are known or on
    /// their way. Returns whether to ask.
    pub fn want_qualities(&mut self, id: &str) -> (ask: bool)
        requires
            old(self).wf(),
        ensures
            final(self).wf(),
            ask == (kget(old(self).qualities@, id@) is None && !listed(old(self).inflight@, id@)),
            ask ==> final(self).inflight@.len() == old(self).inflight@.len() + 1
                && final(self).inflight@.drop_last() == old(self).inflight@ && final(self).inflight@.last()@ == id@,
            !ask ==> final(self).inflight@ == old(self).inflight@,
            final(self).qualities@ == old(self).qualities@,
    {
        if kfind(&self.qualities, id).is_some() {
            return false;
        }
        if has(&self.inflight, id) {
            return false;
        }
        self.inflight.push(id.to_string());
        true
    }

    /// The quality choices of `id` arrived; they are kept.
    pub fn qualities_ready(&mut self, id: String, ready: QualityReady)
        requires
            old(self).wf(),
        ensures
            final(self).wf(),
            final(self).qualities@ == kput(old(self).qualities@, id, ready),
            final(self).inflight@ == old(self).inflight@.filter(|s: String| s@ != id@),
            final(self).pending == old(self).pending,
    {
        drop_str(&mut self.inflight, id.as_str());
        kset(&mut self.qualities, id, ready);
    }

    /// Asking for the quality choices of `id` failed.
    pub fn qualities_failed(&mut self, id: &str)
        ensures
            final(self).inflight@ == old(self).inflight@.filter(|s: String| s@ != id@),
            final(self).qualities@ == old(self).qualities@,
            final(self).pending == old(self).pending,
    {
        drop_str(&mut self.inflight, id);
    }

    /// Everything forgotten (logging out, or the session ended).
    pub fn clear(&mut self)
        ensures
            final(self).pending is None,
            final(self).progress is None,
            final(self).qualities@.len() == 0,
            final(self).inflight@.len() == 0,
            final(self).wf(),
    {
        *self = Previews::new();
    }
}

fn has(v: &Vec<String>, s: &str) -> (b: bool)
    ensures
        b == listed(v@, s@),
{
    let mut k: usize = 0;
    while k < v.len()
        invariant
            0 <= k <= v@.len(),
            forall|q: int| 0 <= q < k ==> (#[trigger] v@[q])@ != s@,
        decreases v@.len() - k,
    {
        if str_eq(v[k].as_str(), s) {
            return true;
        }
        k += 1;
    }
    false
}

fn drop_str(v: &mut Vec<String>, s: &str)
    ensures
        final(v)@ == old(v)@.filter(|x: String| x@ != s@),
{
    let ghost o = v@;
    let ghost pred = |x: String| x@ != s@;
    let mut rest: Vec<String> = Vec::new();
    std::mem::swap(&mut rest, v);
    let total = rest.len();
    let mut k: usize = 0;
    while rest.len() > 0
        invariant
            total == o.len(),
            0 <= k <= o.len(),
            rest@ == o.subrange(k as int, o.len() as int),
            v@ == o.take(k as int).filter(pred),
            pred == (|x: String| x@ != s@),
        decreases rest@.len(),
    {
        let x = rest.remove(0);
        proof {
            assert(k < o.len());
            assert(x == o[k as int]);
            assert(o.take(k + 1) == o.take(k as int).push(x));
            o.take(k as int).lemma_filter_push(x, pred);
        }
        if !str_eq(x.as_str(), s) {
            v.push(x);
        }
        k = k + 1;
        proof {
            assert(rest@ == o.subrange(k as int, o.len() as int));
        }
    }
    proof {
        assert(o.take(k as int) == o);
    }
}

/// How starting the player went.
#[derive(Debug, Clone, PartialEq, Eq)]
pub enum PlayOutcome {
    Started,
    /// The player is not installed.
    Missing,
    /// Another failure, with its message.
    Failed(String),
}

/// The notice after trying to play `name` (with quality `label`, when one was chosen).
pub open spec fn play_text(name: Seq<char>, label: Option<Seq<char>>, outcome: PlayOutcome) -> Seq<char> {
    match outcome {
        PlayOutcome::Started => match label {
            Some(l) => "正在用 mpv 播放「"@ + name + "」("@ + l + ")"@,
            None => "正在用 mpv 播放「"@ + name + "」"@,
        },
        PlayOutcome::Missing => "播放音视频需要 mpv, 请先安装 mpv"@,
        PlayOutcome::Failed(e) => "启动 mpv 失败: "@ + e@,
    }
}

/// What the user is told after trying to start the player.
pub fn play_notice(name: &str, label: Option<&str>, outcome: &PlayOutcome) -> (r: (NoticeKind, String))
    ensures
        r.1@ == play_text(
            name@,
            match label {
                Some(l) => Some(l@),
                None => None,
            },
            *outcome,
        ),
        r.0 == match *outcome {
            PlayOutcome::Started => NoticeKind::Done,
            PlayOutcome::Missing => NoticeKind::Warn,
            PlayOutcome::Failed(_) => NoticeKind::Failed,
        },
{
    let mut out: Vec<char> = Vec::new();
    match outcome {
        PlayOutcome::Started => {
            push_str(&mut out, "正在用 mpv 播放「");
            push_str(&mut out, name);
            match label {
                Some(l) => {
                    push_str(&mut out, "」(");
                    push_str(&mut out, l);
                    push_str(&mut out, ")");
                },
                None => {
                    push_str(&mut out, "」");
                },
            }
            (NoticeKind::Done, string_from_chars(&out))
        },
        PlayOutcome::Missing => (NoticeKind::Warn, "播放音视频需要 mpv, 请先安装 mpv".to_owned()),
        PlayOutcome::Failed(e) => {
            push_str(&mut out, "启动 mpv 失败: ");
            push_str(&mut out, e.as_str());
            (NoticeKind::Failed, string_from_chars(&out))
        },
    }
}

/// How handing a file to the system's viewer went.
#[derive(Debug, Clone, PartialEq, Eq)]
pub enum OpenOutcome {
    /// Handed over (the opener exited cleanly, or kept running).
    Launched,
    /// No program is associated with the file.
    NoHandler,
    /// Another failure, with the opener's message.
    Failed(String),
}

/// The notice after opening `label`; a quiet open says nothing on success.
pub open spec fn open_text(label: Seq<char>, outcome: OpenOutcome) -> Seq<char> {
    match outcome {
        OpenOutcome::Launched => "已打开「"@ + label + "」"@,
        OpenOutcome::NoHandler => "系统未关联打开「"@ + label + "」的程序"@,
        OpenOutcome::Failed(e) => "打开「"@ + label + "」失败: "@ + e@,
    }
}

/// What the user is told after a file was handed to the system's viewer.
pub fn open_notice(label: &str, quiet_ok: bool, outcome: &OpenOutcome) -> (r: Option<(NoticeKind, String)>)
    ensures
        (quiet_ok && *outcome == OpenOutcome::Launched) <==> r is None,
        r matches Some(n) ==> n.1@ == open_text(label@, *outcome) && n.0 == match *outcome {
            OpenOutcome::Launched => NoticeKind::Done,
            OpenOutcome::NoHandler => NoticeKind::Warn,
            OpenOutcome::Failed(_) => NoticeKind::Failed,
        },
{
    let mut out: Vec<char> = Vec::new();
    match outcome {
        OpenOutcome::Launched => {
            if quiet_ok {
                return None;
            }
            push_str(&mut out, "已打开「");
            push_str(&mut out, label);
            push_str(&mut out, "」");
            Some((NoticeKind::Done, string_from_chars(&out)))
        },
        OpenOutcome::NoHandler => {
            push_str(&mut out, "系统未关联打开「");
            push_str(&mut out, label);
            push_str(&mut out, "」的程序");
            Some((NoticeKind::Warn, string_from_chars(&out)))
        },
        OpenOutcome::Failed(e) => {
            push_str(&mut out, "打开「");
            push_str(&mut out, label);
            push_str(&mut out, "」失败: ");
            push_str(&mut out, e.as_str());
            Some((NoticeKind::Failed, string_from_chars(&out)))
        },
    }
}

} // verus!
