use kichi::filetypes::{classify, classify_file, ext_lower, from_ext, from_mime, is_subtitle, FileType};
use kichi::format::{fmt_bytes, fmt_duration, fmt_eta, fmt_rel, fmt_time, phase_label, safe_file_name};
use kichi::helpers::{looks_like_no_handler, subtitle_of};
use kichi::jobs::{aggregate_children, compute_dir_counts, dl_record_status, DlJob, DlNode, DlStatus};
use kichi::logrotate::{
    backup_path, keep_files, max_bytes, rotate_at_start, rotate_due, rotation_steps, RotateStep,
    LOG_KEEP, LOG_MAX_BYTES,
};
use kichi::paths::{path_eq, path_parent, starts_with_path};
use kichi::settings::{
    append_download_record, append_upload_record, remove_download_record, remove_upload_record,
    DownloadRecord, DownloadRecordStatus, UploadRecord, UploadRecordStatus, HISTORY_LIMIT,
};
use kichi::share_link::parse_share_input;
use kichi::transfer::{
    download_backoff, is_active_phase, join_local_path, preview_cache_path, reserve_key,
    reserve_key_of,
    thumbnail_cache_path, unique_name, CacheGate,
};
use kichi::types::File;

#[test]
fn classifies_media_by_ext() {
    assert_eq!(classify("movie.MKV", None), FileType::Video);
    assert_eq!(classify("clip.m2ts", None), FileType::Video);
    assert_eq!(classify("song.flac", None), FileType::Audio);
}

#[test]
fn strong_mime_overrides_ext() {
    assert_eq!(classify("app.ts", Some("video/mp2t")), FileType::Video);
    assert_eq!(classify("app.ts", Some("text/plain")), FileType::Document);
    assert_eq!(
        classify("app.ts", Some("application/typescript")),
        FileType::Document
    );
    assert_eq!(classify("movie.bin", Some("video/mp4")), FileType::Video);
    assert_eq!(classify("noext", Some("video/x-matroska")), FileType::Video);
    assert_eq!(classify("noext", Some("image/png")), FileType::Image);
}

#[test]
fn generic_mime_falls_back_to_ext() {
    for generic in [
        None,
        Some(""),
        Some("application/octet-stream"),
        Some("binary/octet-stream"),
    ] {
        assert_eq!(classify("movie.mkv", generic), FileType::Video);
        assert_eq!(classify("a.zip", generic), FileType::Archive);
    }
    assert_eq!(classify("stream.ts", None), FileType::Video);
    assert_eq!(
        classify("stream.ts", Some("application/octet-stream")),
        FileType::Video
    );
}

#[test]
fn classifies_non_media() {
    for name in ["a.zip", "a.iso", "a.exe", "a.apk", "a.torrent", "a.img"] {
        assert!(matches!(
            classify(name, None),
            FileType::Archive | FileType::Executable | FileType::Torrent
        ));
    }
    for name in ["a.pdf", "a.docx", "a.txt", "a.ass", "a.jpg"] {
        assert!(matches!(
            classify(name, None),
            FileType::Document | FileType::Image
        ));
    }
    for name in ["a.psd", "a.wps", "a.dat", "noext", "name."] {
        assert_eq!(classify(name, None), FileType::Other, "{name}");
    }
    assert_eq!(
        classify("noext", Some("application/x-iso9660-image")),
        FileType::Archive
    );
    assert_eq!(
        classify("noext", Some("application/vnd.microsoft.portable-executable")),
        FileType::Executable
    );
}

#[test]
fn subtitle_detection() {
    assert!(is_subtitle("x.ass"));
    assert!(is_subtitle("x.SRT"));
    assert!(is_subtitle("x.zh-CN.vtt"));
    assert!(!is_subtitle("x.mkv"));
    assert!(!is_subtitle("x.txt"));
    assert_eq!(classify("x.srt", None), FileType::Document);
}

#[test]
fn folders_are_folders() {
    let f = File {
        kind: "drive#folder".to_string(),
        name: "dir".to_string(),
        ..Default::default()
    };
    assert_eq!(classify_file(&f), FileType::Folder);
    let g = File {
        kind: "drive#file".to_string(),
        name: "clip.mp4".to_string(),
        mime_type: Some("video/mp4".to_string()),
        ..Default::default()
    };
    assert_eq!(classify_file(&g), FileType::Video);
}

#[test]
fn mime_normalisation_and_prefix_families() {
    assert_eq!(from_mime("  VIDEO/MP4 "), Some(FileType::Video));
    assert_eq!(from_mime("application/unknown"), None);
    assert_eq!(from_mime("application/x-bittorrent"), Some(FileType::Torrent));
    assert_eq!(
        from_mime("application/vnd.openxmlformats-officedocument.wordprocessingml.document"),
        Some(FileType::Document)
    );
    assert_eq!(from_mime("application/vnd.ms-word.x"), Some(FileType::Document));
    assert_eq!(from_mime("application/json"), None);
    assert_eq!(ext_lower("A.Tar.GZ"), "gz");
    assert_eq!(ext_lower("noext"), "");
    assert_eq!(from_ext("torrent"), FileType::Torrent);
    assert_eq!(from_ext("TORRENT"), FileType::Other);
}

#[test]
fn keeps_plain_names() {
    assert_eq!(safe_file_name("movie.mkv").as_deref(), Some("movie.mkv"));
    assert_eq!(safe_file_name("  a b.mp4 ").as_deref(), Some("a b.mp4"));
}

#[test]
fn strips_directory_components() {
    assert_eq!(safe_file_name("a/b/c.txt").as_deref(), Some("c.txt"));
    assert_eq!(safe_file_name("../../etc/passwd").as_deref(), Some("passwd"));
}

#[test]
fn rejects_empty_or_dot_names() {
    assert_eq!(safe_file_name(""), None);
    assert_eq!(safe_file_name("  "), None);
    assert_eq!(safe_file_name(".."), None);
    assert_eq!(safe_file_name("."), None);
    assert_eq!(safe_file_name("/"), None);
}

#[test]
fn etas_and_relative_times() {
    assert_eq!(fmt_eta(0, 0), "");
    assert_eq!(fmt_eta(120, 10), "12s");
    assert_eq!(fmt_eta(200, 1), "3m20s");
    assert_eq!(fmt_eta(3600 * 2, 1), "2h00m");

    assert_eq!(fmt_rel(100, 0), "");
    assert_eq!(fmt_rel(100, 100), "刚刚");
    assert_eq!(fmt_rel(1000, 100), "15 分钟前");
    assert_eq!(fmt_rel(100 + 7200, 100), "2 小时前");
    assert_eq!(fmt_rel(100 + 86400 * 3, 100), "3 天前");
}

#[test]
fn byte_sizes_match_float_formatting() {
    let cases: [i64; 12] = [
        0,
        1023,
        1024,
        1536,
        10 * 1024 + 51,
        1024 * 1024 - 1,
        5 * 1024 * 1024 + 1234,
        1024 * 1024 * 1024 - 1,
        3 * 1024 * 1024 * 1024 + 7,
        1 << 40,
        i64::MAX,
        -5,
    ];
    for b in cases {
        let f = b as f64;
        let want = if b < 0 {
            "-".to_string()
        } else if f < 1024.0 {
            format!("{b} B")
        } else if f < 1024.0 * 1024.0 {
            format!("{:.1} KB", f / 1024.0)
        } else if f < 1024.0 * 1024.0 * 1024.0 {
            format!("{:.1} MB", f / 1024.0 / 1024.0)
        } else if f < 1024.0 * 1024.0 * 1024.0 * 1024.0 {
            format!("{:.2} GB", f / 1024.0 / 1024.0 / 1024.0)
        } else {
            format!("{:.2} TB", f / 1024.0 / 1024.0 / 1024.0 / 1024.0)
        };
        assert_eq!(fmt_bytes(b), want, "{b}");
    }
}

#[test]
fn times_phases_and_durations() {
    assert_eq!(fmt_time("2024-01-02T03:04:05.000+08:00"), "2024-01-02 03:04");
    assert_eq!(fmt_time("2024-01-01T12:34:56.000Z"), "2024-01-01 12:34");
    assert_eq!(fmt_time("2024-01-01T12:34Z"), "2024-01-01 12:34");
    assert_eq!(fmt_time("2024-01-01"), "2024-01-01");
    assert_eq!(phase_label("PHASE_TYPE_COMPLETE"), "已完成");
    assert_eq!(fmt_duration(59), "59s");
    assert_eq!(fmt_duration(61), "1m01s");
}

#[test]
fn detects_no_handler_wording() {
    assert!(looks_like_no_handler(
        "xdg-open: no method available for opening '/tmp/a.zzz'"
    ));
    assert!(looks_like_no_handler(
        "No application is registered as handling this file"
    ));
    assert!(looks_like_no_handler("no default application for text/x-zzz"));
    assert!(!looks_like_no_handler("xdg-open: file '/tmp/a' does not exist"));
    assert!(!looks_like_no_handler(""));
}

#[test]
fn matches_same_episode_subtitles() {
    let video = "[VCB-Studio] K-ON!! [01][Ma10p_1080p][x265_flac_2aac].mkv";
    assert!(subtitle_of(
        video,
        "[VCB-Studio] K-ON!! [01][Ma10p_1080p][x265_flac_2aac].sc.ass"
    ));
    assert!(subtitle_of(
        video,
        "[VCB-Studio] K-ON!! [01][Ma10p_1080p][x265_flac_2aac].ass"
    ));
    assert!(subtitle_of("ep01.mkv", "ep01.chs.srt"));
    assert!(subtitle_of("ep01.mkv", "ep01-CN.ass"));
    assert!(subtitle_of("Show.EP01.mkv", "show.ep01.ass"));
    assert!(subtitle_of("动画.01.mkv", "动画.01.chs.ass"));
}

#[test]
fn rejects_other_episode_or_unrelated() {
    assert!(!subtitle_of("ep01.mkv", "ep010.ass"));
    assert!(!subtitle_of("ep01.mkv", "ep02.ass"));
    assert!(!subtitle_of("ep01.mkv", "extra.ass"));
    assert!(!subtitle_of("ep01.mkv", "noext"));
}

fn dl_job(status: DlStatus, total: u64, done: u64) -> DlJob {
    let mut j = DlJob::queued("id".into(), "n".into(), "/tmp".into());
    j.status = status;
    j.total = total;
    j.done = done;
    j
}

#[test]
fn aggregate_sums_and_running_status() {
    let a = dl_job(DlStatus::Running, 100, 40);
    let b = dl_job(DlStatus::Done, 50, 50);
    let (total, done, _speed, status) = aggregate_children(&[&a, &b]);
    assert_eq!((total, done), (150, 90));
    assert_eq!(status, DlStatus::Running);
}

#[test]
fn aggregate_all_done_is_done() {
    let a = dl_job(DlStatus::Done, 10, 10);
    let b = dl_job(DlStatus::Done, 5, 5);
    let (total, done, _speed, status) = aggregate_children(&[&a, &b]);
    assert_eq!((total, done), (15, 15));
    assert_eq!(status, DlStatus::Done);
}

#[test]
fn aggregate_any_failure_wins() {
    let a = dl_job(DlStatus::Done, 10, 10);
    let f = dl_job(DlStatus::Failed("x".into()), 0, 0);
    let (_t, _d, _s, status) = aggregate_children(&[&a, &f]);
    assert!(matches!(status, DlStatus::Failed(_)));
    assert_eq!(status, DlStatus::Failed("1 个文件失败".into()));
}

#[test]
fn aggregate_queued_before_any_activity() {
    let a = dl_job(DlStatus::Queued, 10, 0);
    let (_t, _d, _s, status) = aggregate_children(&[&a]);
    assert_eq!(status, DlStatus::Queued);
    let (_t, _d, _s, status) = aggregate_children(&[]);
    assert_eq!(status, DlStatus::Queued);
}

#[test]
fn aggregate_speed_and_saturation() {
    let mut a = dl_job(DlStatus::Running, u64::MAX, 1);
    a.speed = 7;
    let mut b = dl_job(DlStatus::Queued, 5, 5);
    b.speed = 100;
    let (total, done, speed, _status) = aggregate_children(&[&a, &b]);
    assert_eq!(total, u64::MAX);
    assert_eq!(done, 6);
    assert_eq!(speed, 7);
}

#[test]
fn record_status_of_jobs() {
    assert!(matches!(dl_record_status(&DlStatus::Done), DownloadRecordStatus::Done));
    match dl_record_status(&DlStatus::Failed("boom".into())) {
        DownloadRecordStatus::Failed(w) => assert_eq!(w, "boom"),
        _ => panic!("expected a failure"),
    }
    match dl_record_status(&DlStatus::Running) {
        DownloadRecordStatus::Failed(w) => assert_eq!(w, "未完成"),
        _ => panic!("expected a failure"),
    }
}

fn dir_node(name: &str, depth: u32) -> DlNode {
    DlNode {
        is_dir: true,
        name: name.into(),
        depth,
        rid: None,
        expanded: true,
        files_done: 0,
        files_total: 0,
        done: false,
    }
}

fn file_node(depth: u32, done: bool) -> DlNode {
    DlNode {
        is_dir: false,
        name: "f".into(),
        depth,
        rid: Some(1),
        expanded: false,
        files_done: 0,
        files_total: 0,
        done,
    }
}

#[test]
fn dir_counts_roll_up_subtree() {
    let mut nodes = vec![
        dir_node("A", 1),
        file_node(2, true),
        file_node(2, false),
        dir_node("B", 2),
        file_node(3, true),
        dir_node("C", 1),
    ];
    compute_dir_counts(&mut nodes);
    assert_eq!((nodes[0].files_done, nodes[0].files_total), (2, 3));
    assert_eq!((nodes[3].files_done, nodes[3].files_total), (1, 1));
    assert_eq!((nodes[5].files_done, nodes[5].files_total), (0, 0));
}

#[test]
fn parse_share_id_from_url_forms() {
    let cases = [
        ("https://mypikpak.com/s/VO8B-abc", Some(("VO8B-abc", None))),
        (
            "  https://mypikpak.com/s/VO8B-abc?password=abcd  ",
            Some(("VO8B-abc", Some("abcd"))),
        ),
        ("https://mypikpak.com/s/VO8B-abc#frag", Some(("VO8B-abc", None))),
        (
            "打开链接 https://mypikpak.com/s/AbC_123 查看",
            Some(("AbC_123", None)),
        ),
        ("xyz-1", Some(("xyz-1", None))),
        ("https://example.com/download/abc", None),
        ("https://mypikpak.com/s/", None),
        ("not a valid id!", None),
        ("", None),
    ];
    for (input, want) in cases {
        let got = parse_share_input(input);
        let got = got.as_ref().map(|(id, p)| (id.as_str(), p.as_deref()));
        assert_eq!(got, want, "input: {input:?}");
    }
}

#[test]
fn share_codes_in_queries() {
    let got = parse_share_input("https://mypikpak.com/s/ID?x=1&pass_code=9z#f");
    assert_eq!(got, Some(("ID".to_string(), Some("9z".to_string()))));
    // The query ends at the first whitespace, so a code after a space is lost.
    let got = parse_share_input("https://mypikpak.com/s/ID?x=1&pass_code= 9z");
    assert_eq!(got, Some(("ID".to_string(), None)));
    let got = parse_share_input("https://mypikpak.com/s/ID?password=&passcode=q");
    assert_eq!(got, Some(("ID".to_string(), Some("q".to_string()))));
    let got = parse_share_input("https://mypikpak.com/s/ID?password");
    assert_eq!(got, Some(("ID".to_string(), None)));
}

#[test]
fn join_local_path_sanitizes_components() {
    assert_eq!(join_local_path("/tmp/dl/A", &[]), "/tmp/dl/A");
    assert_eq!(
        join_local_path("/tmp/dl/A", &["B".into(), "C".into()]),
        "/tmp/dl/A/B/C"
    );
}

#[test]
fn join_local_path_strips_separators_and_rejects_traversal() {
    assert_eq!(
        join_local_path("/tmp/dl", &["../evil".into(), ".".into()]),
        "/tmp/dl/evil/download"
    );
    assert_eq!(join_local_path("/tmp/dl/", &["x".into()]), "/tmp/dl/x");
}

#[test]
fn backoff_doubles_up_to_eight_seconds() {
    let got: Vec<u64> = (0..7).map(download_backoff).collect();
    assert_eq!(got, vec![500, 1000, 2000, 4000, 8000, 8000, 8000]);
    assert_eq!(download_backoff(u32::MAX), 8000);
}

#[test]
fn unique_names_number_the_stem() {
    assert_eq!(unique_name("a.txt", 0), "a.txt");
    assert_eq!(unique_name("a.txt", 2), "a (2).txt");
    assert_eq!(unique_name("archive.tar.gz", 1), "archive.tar (1).gz");
    assert_eq!(unique_name(".bashrc", 1), ".bashrc (1)");
    assert_eq!(unique_name("name.", 3), "name. (3)");
    assert_eq!(unique_name("noext", 10), "noext (10)");
}

#[test]
fn reserve_keys_and_phases() {
    assert_eq!(reserve_key("/d", "n"), "/d\u{0}n");
    assert!(is_active_phase("PHASE_TYPE_PENDING"));
    assert!(is_active_phase("PHASE_TYPE_RUNNING"));
    assert!(!is_active_phase("PHASE_TYPE_COMPLETE"));
}

#[test]
fn cache_paths_clean_ids_and_names() {
    assert_eq!(
        preview_cache_path("/c/preview", "ab/c..d", "../x.pdf"),
        "/c/preview/abcd/x.pdf"
    );
    assert_eq!(preview_cache_path("/c/preview", "//", ".."), "/c/preview/unknown/preview");
    assert_eq!(thumbnail_cache_path("/c/thumbs", "id-1_x"), "/c/thumbs/id-1_x.jpg");
    assert_eq!(thumbnail_cache_path("/c/thumbs", "**"), "/c/thumbs/unknown.jpg");
}

#[test]
fn cache_gate_counts_bytes_and_time() {
    let mut g = CacheGate::new(1_000);
    assert!(!g.note_write(1024, 2_000));
    assert_eq!(g.new_bytes, 1024);
    assert!(g.note_write(8 * 1024 * 1024, 3_000));
    assert_eq!((g.last, g.new_bytes), (3_000, 0));
    assert!(!g.note_write(1, 62_999));
    assert!(g.note_write(1, 63_000));
}

fn download_record(ts: &str, file_id: &str, name: &str, dir: &str) -> DownloadRecord {
    DownloadRecord {
        file_id: file_id.into(),
        name: name.into(),
        dir: dir.into(),
        total: 1,
        done: 1,
        status: DownloadRecordStatus::Done,
        at: 0,
        timestamp: ts.into(),
        is_folder: false,
        children: Vec::new(),
    }
}

fn upload_record(ts: &str, path: &str, name: &str) -> UploadRecord {
    UploadRecord {
        local_path: path.into(),
        name: name.into(),
        parent: None,
        dest_stack: Vec::new(),
        total: 1,
        done: 1,
        status: UploadRecordStatus::Failed("x".into()),
        is_dir: false,
        at: 0,
        timestamp: ts.into(),
    }
}

#[test]
fn download_history_is_newest_first_and_bounded() {
    let mut h: Vec<DownloadRecord> = Vec::new();
    for i in 0..(HISTORY_LIMIT + 5) {
        append_download_record(&mut h, download_record(&i.to_string(), "", "n", "/d"));
    }
    assert_eq!(h.len(), HISTORY_LIMIT);
    assert_eq!(h[0].timestamp, (HISTORY_LIMIT + 4).to_string());
    assert_eq!(h[HISTORY_LIMIT - 1].timestamp, "5");
}

#[test]
fn download_history_removal_rules() {
    let mut h: Vec<DownloadRecord> = Vec::new();
    append_download_record(&mut h, download_record("t1", "f1", "a", "/x/y"));
    append_download_record(&mut h, download_record("t2", "", "a", "/x/y"));
    append_download_record(&mut h, download_record("t3", "f3", "b", "/x"));
    // By id.
    assert!(remove_download_record(&mut h, "t1", "", "", ""));
    assert_eq!(h.len(), 2);
    assert!(!remove_download_record(&mut h, "nope", "f3", "b", "/x"));
    // By drive id when both sides have one.
    assert!(remove_download_record(&mut h, "", "f3", "zzz", "/elsewhere"));
    // Otherwise by name and path, compared as paths.
    assert!(remove_download_record(&mut h, "", "", "a", "/x//y/"));
    assert!(h.is_empty());
}

#[test]
fn upload_history_rules() {
    let mut h: Vec<UploadRecord> = Vec::new();
    append_upload_record(&mut h, upload_record("u1", "/home/a.txt", "a.txt"));
    append_upload_record(&mut h, upload_record("u2", "/home/b.txt", "b.txt"));
    assert_eq!(h[0].timestamp, "u2");
    assert!(remove_upload_record(&mut h, "", "/home/./a.txt", "a.txt"));
    assert!(!remove_upload_record(&mut h, "u1", "", ""));
    assert!(remove_upload_record(&mut h, "u2", "", ""));
    assert!(h.is_empty());
}

#[test]
fn paths_compare_by_components() {
    assert!(path_eq("a//b/", "a/b"));
    assert!(path_eq("./a", "./a/."));
    assert!(!path_eq("./a", "a"));
    assert!(!path_eq("/a", "a"));
    assert!(!path_eq("a/../b", "b"));
    assert!(starts_with_path("/tmp/x/y.zip", "/tmp/x"));
    assert!(starts_with_path("/tmp/x", "/tmp/x/"));
    assert!(!starts_with_path("/tmp/xy", "/tmp/x"));
    let samples = ["", "/", "//", ".", "./", "./a", "a", "a/", "a//b", "a/./b", "/a/../b", "..", ".a/b", "a/b/."];
    for a in samples {
        for b in samples {
            let pa = std::path::Path::new(a);
            let pb = std::path::Path::new(b);
            assert_eq!(path_eq(a, b), pa == pb, "{a:?} == {b:?}");
            assert_eq!(starts_with_path(a, b), pa.starts_with(pb), "{a:?} starts with {b:?}");
        }
    }
}

#[test]
fn log_limits_from_settings() {
    assert_eq!(max_bytes(None), LOG_MAX_BYTES);
    assert_eq!(max_bytes(Some(" 5 ")), 5 * 1024 * 1024);
    assert_eq!(max_bytes(Some("0")), 1024 * 1024);
    assert_eq!(max_bytes(Some("999999")), 1024 * 1024 * 1024);
    assert_eq!(max_bytes(Some("x")), LOG_MAX_BYTES);
    assert_eq!(keep_files(None), LOG_KEEP);
    assert_eq!(keep_files(Some("2")), 2);
    assert_eq!(keep_files(Some("100")), 16);
    assert_eq!(keep_files(Some("-1")), LOG_KEEP);
    assert_eq!(backup_path("/c/kichi.log", 2), "/c/kichi.log.2");
}

#[test]
fn rotate_shifts_backups_and_drops_oldest() {
    assert_eq!(
        rotation_steps(2),
        vec![
            RotateStep::Remove(2),
            RotateStep::Rename(1, 2),
            RotateStep::Rename(0, 1)
        ]
    );
    assert_eq!(rotation_steps(1), vec![RotateStep::Remove(1), RotateStep::Rename(0, 1)]);
    assert_eq!(rotation_steps(0), vec![RotateStep::Remove(0)]);
}

#[test]
fn sink_rotates_only_at_line_boundary() {
    // 7 bytes written against a limit of 8.
    assert!(!rotate_due(0, 7, 8, true));
    assert!(!rotate_due(7, 2, 8, false));
    assert!(rotate_due(9, 1, 8, true));
    assert!(!rotate_due(0, 100, 8, true));
    assert!(!rotate_due(u64::MAX, u64::MAX, u64::MAX, false));
}

#[test]
fn new_rotates_oversized_previous_file() {
    assert!(rotate_at_start(10, 8));
    assert!(rotate_at_start(8, 8));
    assert!(!rotate_at_start(7, 8));
}

#[test]
fn parents_follow_std_paths() {
    assert_eq!(path_parent("/tmp/dl/a.txt").as_deref(), Some("/tmp/dl"));
    assert_eq!(path_parent("./a").as_deref(), Some("."));
    assert_eq!(path_parent("a/b/").as_deref(), Some("a"));
    assert_eq!(path_parent("a/./b/.").as_deref(), Some("a"));
    assert_eq!(path_parent("/a").as_deref(), Some("/"));
    assert_eq!(path_parent("a").as_deref(), Some(""));
    assert_eq!(path_parent(".").as_deref(), Some(""));
    assert_eq!(path_parent("/"), None);
    assert_eq!(path_parent(""), None);
    for p in ["/tmp/dl/a.txt", "./a", "a/b/", "a/./b/.", "/a", "a", ".", "/", "", "..", "a//b//"] {
        let want = std::path::Path::new(p).parent().map(|x| x.to_str().unwrap().to_string());
        assert_eq!(path_parent(p), want, "{p}");
    }
}

#[test]
fn reservation_keys_of_targets() {
    assert_eq!(reserve_key_of("/tmp/dl/a.txt"), "/tmp/dl\u{0}a.txt");
    assert_eq!(reserve_key_of("a.txt"), "\u{0}a.txt");
    assert_eq!(reserve_key_of("/"), "\u{0}");
}

#[test]
fn mpv_command_line() {
    let headers = vec![
        ("User-Agent".to_string(), "UA".to_string()),
        ("Referer".to_string(), "r".to_string()),
        ("Cookie".to_string(), "c".to_string()),
    ];
    let args = kichi::helpers::mpv_args("a.mkv", "https://u", &headers, &["/s.ass".to_string()]);
    assert_eq!(
        args,
        vec![
            "--force-window=yes",
            "--ytdl=no",
            "--title=a.mkv",
            "--user-agent=UA",
            "--http-header-fields=Referer: r,Cookie: c",
            "--slang=zh-Hans,zh-CN,zh-Hant,zh-TW,chs,cht,sc,tc,chi,zh,en",
            "--sub-file=/s.ass",
            "--",
            "https://u",
        ]
    );
    let plain = kichi::helpers::mpv_args("t", "u", &[("user-agent".into(), "x".into())], &[]);
    assert_eq!(plain.len(), 7);
    assert_eq!(plain[3], "--user-agent=x");
}

#[test]
fn episode_subtitles_pick_matching_files() {
    let mk = |id: &str, kind: &str, name: &str| File {
        id: id.into(),
        kind: kind.into(),
        name: name.into(),
        ..Default::default()
    };
    let files = vec![
        mk("1", "drive#file", "ep01.chs.ass"),
        mk("2", "drive#file", "ep02.ass"),
        mk("3", "drive#folder", "ep01.sub"),
        mk("4", "drive#file", "ep01.mkv"),
        mk("5", "drive#file", "EP01-en.SRT"),
    ];
    let subs = kichi::helpers::episode_subtitles(&files, "ep01.mkv");
    assert_eq!(
        subs,
        vec![
            ("1".to_string(), "ep01.chs.ass".to_string()),
            ("5".to_string(), "EP01-en.SRT".to_string()),
        ]
    );
}
