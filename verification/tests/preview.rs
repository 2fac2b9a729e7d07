use kichi::filetypes::FileType;
use kichi::format::NoticeKind;
use kichi::msg::QualityOption;
use kichi::preview::{
    needs_confirm, open_notice, play_notice, OpenOutcome, PlayOutcome, Previews, QualityReady,
    PREVIEW_CONFIRM_BYTES,
};

#[test]
fn large_uncached_files_ask_first() {
    assert_eq!(PREVIEW_CONFIRM_BYTES, 64 * 1024 * 1024);
    assert!(needs_confirm(PREVIEW_CONFIRM_BYTES + 1, false));
    assert!(!needs_confirm(PREVIEW_CONFIRM_BYTES, false));
    assert!(!needs_confirm(PREVIEW_CONFIRM_BYTES + 1, true));
}

#[test]
fn only_the_pending_preview_moves() {
    let mut p = Previews::new();
    let s = p.start(7, "a.mkv".into(), FileType::Video);
    assert!(s.media && s.with_subtitles);
    let s = p.start(8, "b.mp3".into(), FileType::Audio);
    assert!(s.media && !s.with_subtitles);
    p.progress(7, 100, 10);
    assert!(p.progress.is_none());
    p.progress(8, 100, 10);
    let pr = p.progress.clone().unwrap();
    assert_eq!((pr.req_id, pr.name.as_str(), pr.total, pr.done), (8, "b.mp3", 100, 10));
    p.ended(7);
    assert_eq!(p.pending, Some((8, "b.mp3".to_string())));
    assert!(p.progress.is_some());
    p.ended(8);
    assert!(p.pending.is_none() && p.progress.is_none());
    let s = p.start(9, "c.pdf".into(), FileType::Document);
    assert!(!s.media && !s.with_subtitles);
    p.progress(9, 5, 1);
    assert_eq!(p.cancel(), Some(9));
    assert!(p.pending.is_none());
    assert_eq!(p.cancel(), None);
}

#[test]
fn qualities_asked_once() {
    let mut p = Previews::new();
    assert!(p.want_qualities("f"));
    assert!(!p.want_qualities("f"));
    let opt = QualityOption { label: "原画".into(), url: "u".into(), headers: vec![] };
    p.qualities_ready("f".into(), QualityReady { options: vec![opt], subs: vec!["/s.srt".into()] });
    assert!(p.inflight.is_empty());
    assert!(!p.want_qualities("f"));
    assert!(p.want_qualities("g"));
    p.qualities_failed("g");
    assert!(p.want_qualities("g"));
    p.clear();
    assert!(p.qualities.is_empty() && p.inflight.is_empty());
}

#[test]
fn player_and_viewer_notices() {
    assert_eq!(
        play_notice("a.mkv", None, &PlayOutcome::Started),
        (NoticeKind::Done, "正在用 mpv 播放「a.mkv」".to_string())
    );
    assert_eq!(
        play_notice("a.mkv", Some("1080P"), &PlayOutcome::Started).1,
        "正在用 mpv 播放「a.mkv」(1080P)"
    );
    assert_eq!(
        play_notice("a.mkv", None, &PlayOutcome::Missing),
        (NoticeKind::Warn, "播放音视频需要 mpv, 请先安装 mpv".to_string())
    );
    assert_eq!(
        play_notice("a", None, &PlayOutcome::Failed("boom".into())),
        (NoticeKind::Failed, "启动 mpv 失败: boom".to_string())
    );
    assert_eq!(open_notice("x.pdf", true, &OpenOutcome::Launched), None);
    assert_eq!(
        open_notice("x.pdf", false, &OpenOutcome::Launched),
        Some((NoticeKind::Done, "已打开「x.pdf」".to_string()))
    );
    assert_eq!(
        open_notice("x.pdf", true, &OpenOutcome::NoHandler),
        Some((NoticeKind::Warn, "系统未关联打开「x.pdf」的程序".to_string()))
    );
    assert_eq!(
        open_notice("x", false, &OpenOutcome::Failed("code 4".into())).unwrap().1,
        "打开「x」失败: code 4"
    );
}
