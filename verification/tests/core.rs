use kichi::download::{
    check_file_detail, detail_action, media_variants_of, part_path, resume_action, retry_with_token,
    transfer_complete, DownloadLink, MediaVariant, ResumeAction,
};
use kichi::json::Json;
use kichi::requests::{move_copy_body, request_action, truncate};
use kichi::types::{
    number_from_text, page_token, task_created, task_file_id, task_i64, task_id, task_name,
    task_original_url, task_size, task_str, File, Share, Tasks,
};
use kichi::upload::{
    complete_multipart_body, extract_xml_tag, gcid, gcid_block_size, hex_lower,
    oss_authorization, part_len, upload_chunk_size, GcidHasher, OssContext, OssUploadState,
    clean_etag, completion_failed, oss_url, part_query, upload_id_of,
    UploadTicket, MAX_PARTS, MIN_CHUNK,
};

fn to_json(v: serde_json::Value) -> Json {
    match v {
        serde_json::Value::Null => Json::Null,
        serde_json::Value::Bool(b) => Json::Bool(b),
        serde_json::Value::Number(n) => match n.as_i64() {
            Some(i) => Json::Int(i),
            None => Json::OtherNum,
        },
        serde_json::Value::String(s) => Json::Str(s),
        serde_json::Value::Array(a) => Json::Arr(a.into_iter().map(to_json).collect()),
        serde_json::Value::Object(m) => {
            Json::Obj(m.into_iter().map(|(k, v)| (k, to_json(v))).collect())
        }
    }
}

fn j(text: &str) -> Json {
    to_json(serde_json::from_str(text).unwrap())
}

fn detail_text(web_content_link: &str, medias: &str) -> String {
    format!(
        r#"{{
            "kind": "drive#file",
            "name": "movie.mkv",
            "size": "1048576000",
            "web_content_link": "{web_content_link}",
            "medias": {medias},
            "links": {{ "application/octet-stream": {{ "url": "https://f.mypikpak.com/octet?sig=2" }} }}
        }}"#
    )
}

fn detail() -> Json {
    j(&detail_text(
        "https://f.mypikpak.com/download/abc?sig=1",
        r#"[ { "link": { "url": "https://api-drive.mypikpak.com/media/1" } } ]"#,
    ))
}

#[test]
fn parses_prefers_web_content_link() {
    let dl = DownloadLink::from_detail("f1", &detail()).unwrap();
    assert_eq!(dl.name, "movie.mkv");
    assert_eq!(dl.size, 1048576000);
    assert_eq!(dl.file_id, "f1");
    assert!(dl.url.contains("/download/abc"));
}

#[test]
fn falls_back_to_medias_then_links() {
    let d = j(&detail_text(
        "",
        r#"[ { "link": { "url": "https://api-drive.mypikpak.com/media/1" } } ]"#,
    ));
    let dl = DownloadLink::from_detail("f1", &d).unwrap();
    assert_eq!(dl.url, "https://api-drive.mypikpak.com/media/1");

    let d = j(&detail_text("", "[]"));
    let dl = DownloadLink::from_detail("f1", &d).unwrap();
    assert_eq!(dl.url, "https://f.mypikpak.com/octet?sig=2");
}

#[test]
fn missing_url_is_error() {
    let d = j(r#"{ "name": "x", "size": 1 }"#);
    assert!(DownloadLink::from_detail("f1", &d).is_err());
}

#[test]
fn numeric_and_string_sizes() {
    let dl = DownloadLink::from_detail(
        "f",
        &j(r#"{ "name": "n", "size": 12345, "web_content_link": "u" }"#),
    )
    .unwrap();
    assert_eq!(dl.size, 12345);

    let dl = DownloadLink::from_detail(
        "f",
        &j(r#"{ "name": "n", "size": "9", "web_content_link": "u" }"#),
    )
    .unwrap();
    assert_eq!(dl.size, 9);
}

#[test]
fn part_path_appends_suffix() {
    assert_eq!(part_path("/a/b/x.mkv"), "/a/b/x.mkv.part");
    assert_eq!(part_path("/a/无扩展"), "/a/无扩展.part");
}

#[test]
fn variants_origin_first_then_by_height() {
    let d = j(r#"{
        "name": "movie.mkv",
        "web_content_link": "https://f.mypikpak.com/orig",
        "medias": [
            { "link": { "url": "https://cdn/720" }, "video": { "height": 720, "video_codec": "h264" } },
            { "link": { "url": "https://cdn/orig" }, "is_origin": true },
            { "link": { "url": "https://cdn/1080" }, "video": { "height": 1080 } }
        ]
    }"#);
    let v = MediaVariant::from_detail(&d);
    assert_eq!(v.len(), 3);
    assert!(v[0].is_origin);
    assert_eq!(v[0].label, "原画");
    assert_eq!(v[0].url, "https://cdn/orig");
    assert_eq!(v[1].label, "1080P");
    assert_eq!(v[2].label, "720P h264");
}

#[test]
fn variants_fall_back_to_web_content_link() {
    let d = j(r#"{ "name": "clip.mp4", "web_content_link": "https://f.mypikpak.com/orig" }"#);
    let v = MediaVariant::from_detail(&d);
    assert_eq!(v.len(), 1);
    assert!(v[0].is_origin);
    assert_eq!(v[0].url, "https://f.mypikpak.com/orig");
}

#[test]
fn variants_skip_invisible_and_dedup_labels() {
    let d = j(r#"{
        "name": "x.mkv",
        "medias": [
            { "link": { "url": "https://cdn/a" }, "is_visible": false, "video": { "height": 1080 } },
            { "link": { "url": "https://cdn/b" }, "video": { "height": 720 } },
            { "link": { "url": "https://cdn/c" }, "video": { "height": 720 } }
        ]
    }"#);
    let v = MediaVariant::from_detail(&d);
    assert_eq!(v.len(), 1);
    assert_eq!(v[0].label, "720P");
    assert_eq!(v[0].url, "https://cdn/b");
}

#[test]
fn variants_empty_without_links() {
    assert!(MediaVariant::from_detail(&j(r#"{ "name": "x" }"#)).is_empty());
}

#[test]
fn block_size_thresholds() {
    assert_eq!(gcid_block_size(1), 256 * 1024);
    assert_eq!(gcid_block_size(200 * 1024 * 1024), 512 * 1024);
    assert_eq!(gcid_block_size(500 * 1024 * 1024), 1024 * 1024);
    assert_eq!(gcid_block_size(1024 * 1024 * 1024), 2 * 1024 * 1024);
}

#[test]
fn gcid_golden_vectors() {
    assert_eq!(gcid(b""), "da39a3ee5e6b4b0d3255bfef95601890afd80709");
    assert_eq!(gcid(b"hello"), "6b4f89a54e2d27ecd7e8da05b4ab8fd9d1d8b119");
    // 300 KiB: 256 KiB blocks, the second one 44 KiB.
    assert_eq!(
        gcid(&vec![b'A'; 300 * 1024]),
        "6764b9b8d20625682ec6ae5115f6d72386ae6294"
    );
}

#[test]
fn gcid_hasher_matches_whole_buffer() {
    let data = vec![b'A'; 300 * 1024];
    let mut h = GcidHasher::new();
    h.update_block(&data[..256 * 1024]);
    h.update_block(&data[256 * 1024..]);
    assert_eq!(h.finish(), gcid(&data));
}

#[test]
fn hex_is_lower_case_two_digits_per_byte() {
    assert_eq!(hex_lower(&[0x00, 0x0f, 0xab, 0xff]), "000fabff");
    assert_eq!(hex_lower(&[]), "");
}

#[test]
fn upload_chunk_size_at_least_5mb_and_bounded_parts() {
    assert_eq!(upload_chunk_size(1), MIN_CHUNK);
    let size = 100u64 * 1024 * 1024 * 1024;
    let chunk = upload_chunk_size(size);
    assert!(chunk >= 10 * 1024 * 1024);
    assert!(size.div_ceil(chunk) <= MAX_PARTS);
}

#[test]
fn upload_chunk_size_exact_values() {
    assert_eq!(upload_chunk_size(0), MIN_CHUNK);
    assert_eq!(upload_chunk_size(MIN_CHUNK * MAX_PARTS), MIN_CHUNK);
    assert_eq!(upload_chunk_size(MIN_CHUNK * MAX_PARTS + 1), MIN_CHUNK + 1);
}

#[test]
fn oss_authorization_golden_vector() {
    let oss = OssContext {
        endpoint: "oss.example.com".into(),
        access_key_id: "AKID".into(),
        access_key_secret: "SECRET".into(),
        security_token: "TOKEN".into(),
        bucket: "bkt".into(),
        key: "dir/file.bin".into(),
    };
    let auth = oss_authorization(
        "PUT",
        "Mon, 16 Sep 2026 12:00:00 GMT",
        &oss,
        "partNumber=1&uploadId=UP1",
    );
    assert_eq!(auth, "OSS AKID:aLOyIHR+8CB/WM/SlWjX2reBF/c=");
}

#[test]
fn parse_ticket_complete_and_resumable() {
    let done = UploadTicket::from_response(&j(r#"{ "file": { "phase": "PHASE_TYPE_COMPLETE" } }"#));
    assert!(done.completed);
    assert!(done.oss.is_none());

    let pending = UploadTicket::from_response(&j(r#"{
        "file": { "phase": "PHASE_TYPE_PENDING" },
        "resumable": { "params": {
            "endpoint": "oss.example.com", "access_key_id": "a",
            "access_key_secret": "s", "security_token": "t",
            "bucket": "b", "key": "k"
        }}
    }"#));
    assert!(!pending.completed);
    let oss = pending.oss.unwrap();
    assert_eq!(oss.endpoint, "oss.example.com");
    assert_eq!(oss.key, "k");
}

#[test]
fn part_len_and_uploaded_bytes() {
    assert_eq!(part_len(1, 5, 12), 5);
    assert_eq!(part_len(2, 5, 12), 5);
    assert_eq!(part_len(3, 5, 12), 2);
    assert_eq!(part_len(1, 5, 0), 0);

    let mut st = OssUploadState::default();
    st.etags.insert(1, "e1".into());
    st.etags.insert(2, "e2".into());
    assert_eq!(st.uploaded_bytes(5, 12), 10);
}

#[test]
fn complete_body_and_xml_tag() {
    let body = complete_multipart_body(&["e1".into(), "e2".into()]);
    assert!(body.contains("<PartNumber>1</PartNumber><ETag>e1</ETag>"));
    assert!(body.contains("<PartNumber>2</PartNumber><ETag>e2</ETag>"));
    assert_eq!(
        extract_xml_tag("<X><UploadId>UP</UploadId></X>", "UploadId").as_deref(),
        Some("UP")
    );
}

#[test]
fn xml_tag_missing_is_none() {
    assert_eq!(extract_xml_tag("<X><Other>1</Other></X>", "UploadId"), None);
    assert_eq!(extract_xml_tag("<UploadId>unclosed", "UploadId"), None);
}

#[test]
fn tasks_parse() {
    let tasks = Tasks::parse(j(r#"{
        "tasks": [
            { "id": "t1", "name": "x.iso", "file_id": "f9", "file_size": "1024" }
        ],
        "next_page_token": "next"
    }"#));
    assert_eq!(tasks.tasks.len(), 1);
    assert_eq!(tasks.next_page_token.as_deref(), Some("next"));
    assert_eq!(task_name(&tasks.tasks[0]).as_deref(), Some("x.iso"));
    assert_eq!(task_size(&tasks.tasks[0]), Some(1024));
    assert_eq!(task_id(&tasks.tasks[0]).as_deref(), Some("t1"));
}

#[test]
fn tasks_parse_without_tasks_or_token() {
    let tasks = Tasks::parse(j(r#"{ "next_page_token": "" }"#));
    assert!(tasks.tasks.is_empty());
    assert!(tasks.next_page_token.is_none());
}

#[test]
fn task_fields_fall_back_in_key_order() {
    let t = j(r#"{ "name": "", "file_name": "b.bin", "created_at": "2024",
                  "size": 7, "original_url": "magnet:x", "file_id": "f" }"#);
    assert_eq!(task_name(&t).as_deref(), Some("b.bin"));
    assert_eq!(task_created(&t).as_deref(), Some("2024"));
    assert_eq!(task_size(&t), Some(7));
    assert_eq!(task_original_url(&t).as_deref(), Some("magnet:x"));
    assert_eq!(task_file_id(&t).as_deref(), Some("f"));
    assert_eq!(task_id(&t), None);
    assert_eq!(task_str(&t, &["missing", "name"]), None);
    assert_eq!(task_i64(&j(r#"{ "a": "x", "b": "-5" }"#), &["a", "b"]), Some(-5));
}

#[test]
fn file_kind_decides_folder() {
    let f = File {
        kind: "drive#folder".to_string(),
        ..Default::default()
    };
    assert!(f.is_folder());
    let g = File {
        kind: "drive#file".to_string(),
        ..Default::default()
    };
    assert!(!g.is_folder());
}

#[test]
fn share_rules() {
    let s = Share {
        pass_code: "abcd".into(),
        share_to: "encryptedlink".into(),
        file_num: "3".into(),
        expiration_days: "-1".into(),
        share_status: "OK".into(),
        ..Default::default()
    };
    assert!(s.needs_pass_code());
    assert_eq!(s.expiry_label(), "永久");
    assert_eq!(s.file_count(), 3);
    assert!(!s.is_unavailable());

    let t = Share {
        share_to: "publiclink".into(),
        file_num: " x ".into(),
        expiration_days: " 7 ".into(),
        share_status: "DELETED".into(),
        ..Default::default()
    };
    assert!(!t.needs_pass_code());
    assert_eq!(t.expiry_label(), "7 天");
    assert_eq!(t.file_count(), 0);
    assert!(t.is_unavailable());
    assert!(!Share::default().is_unavailable());
}

#[test]
fn server_numbers_and_tokens() {
    assert_eq!(number_from_text(" 42 "), 42);
    assert_eq!(number_from_text("4.5"), 0);
    assert_eq!(number_from_text(""), 0);
    assert_eq!(page_token(Some(String::new())), None);
    assert_eq!(page_token(Some("n".into())).as_deref(), Some("n"));
    assert_eq!(page_token(None), None);
}

fn member<'a>(v: &'a Json, key: &str) -> &'a Json {
    v.get(key).unwrap()
}

#[test]
fn move_copy_body_builds_expected_json() {
    let ids = vec!["a".to_string(), "b".to_string()];
    let v = move_copy_body(&ids, Some("target"));
    match member(&v, "ids") {
        Json::Arr(a) => {
            assert_eq!(a.len(), 2);
            assert_eq!(a[0].as_str().map(|s| s.as_str()), Some("a"));
            assert_eq!(a[1].as_str().map(|s| s.as_str()), Some("b"));
        }
        _ => panic!("ids is not an array"),
    }
    let to = member(&v, "to");
    assert_eq!(member(to, "parent_id").as_str().map(|s| s.as_str()), Some("target"));
    let root = move_copy_body(&ids, None);
    match member(&root, "to") {
        Json::Obj(m) => assert!(m.is_empty()),
        _ => panic!("to is not an object"),
    }
    match member(&move_copy_body(&ids, Some("")), "to") {
        Json::Obj(m) => assert!(m.is_empty()),
        _ => panic!("to is not an object"),
    }
}

#[test]
fn request_action_takes_the_path() {
    assert_eq!(
        request_action("GET", "https://api-drive.mypikpak.com/drive/v1/files?x=1"),
        "GET:/drive/v1/files?x=1"
    );
    assert_eq!(request_action("POST", "https://host"), "POST:");
    assert_eq!(request_action("GET", "/relative/path"), "GET:/relative/path");
}

#[test]
fn truncate_counts_characters() {
    assert_eq!(truncate("分享给你", 2), "分享");
    assert_eq!(truncate("abc", 10), "abc");
    assert_eq!(truncate("abc", 0), "");
}

#[test]
fn media_variants_fall_back_to_the_download_link() {
    let v = media_variants_of(" f1 ", &detail()).unwrap();
    assert_eq!(v.len(), 2);
    assert!(v[0].is_origin);
    let only_links = j(r#"{ "name": "x", "links": { "a": { "url": "https://l" } } }"#);
    let v = media_variants_of("f1", &only_links).unwrap();
    assert_eq!(v.len(), 1);
    assert_eq!(v[0].label, "原画");
    assert_eq!(v[0].url, "https://l");
    assert!(media_variants_of("f1", &j(r#"{ "name": "x" }"#)).is_err());
}

#[test]
fn folder_details_are_refused() {
    assert!(check_file_detail(j(r#"{ "kind": "drive#folder" }"#)).is_err());
    assert!(check_file_detail(j(r#"{ "kind": "drive#file" }"#)).is_ok());
    assert!(check_file_detail(j(r#"{ "name": "x" }"#)).is_ok());
    assert_eq!(detail_action(" f9 ").unwrap(), "GET:/drive/v1/files/f9");
    assert!(detail_action("  ").is_err());
}

#[test]
fn resume_decisions() {
    assert_eq!(resume_action(206, 10, 100), ResumeAction::Append);
    assert_eq!(resume_action(206, 0, 100), ResumeAction::Restart);
    assert_eq!(resume_action(416, 100, 100), ResumeAction::AlreadyComplete);
    assert_eq!(resume_action(416, 10, 100), ResumeAction::TruncateAndRetry);
    assert_eq!(resume_action(416, 10, 0), ResumeAction::TruncateAndRetry);
    assert_eq!(resume_action(416, 0, 100), ResumeAction::Fail);
    assert_eq!(resume_action(200, 10, 100), ResumeAction::Restart);
    assert_eq!(resume_action(404, 0, 0), ResumeAction::Fail);
    assert!(retry_with_token(401, true) && retry_with_token(403, true));
    assert!(!retry_with_token(401, false) && !retry_with_token(500, true));
    assert!(transfer_complete(0, 0) && transfer_complete(10, 10) && transfer_complete(10, 12));
    assert!(!transfer_complete(10, 9));
}

#[test]
fn missing_parts_and_ordered_etags() {
    let mut st = OssUploadState::default();
    assert_eq!(st.missing_parts(0), vec![1]);
    assert_eq!(st.missing_parts(12 * 1024 * 1024), vec![1, 2, 3]);
    st.etags.insert(3, "e3".into());
    st.etags.insert(1, "e1".into());
    assert_eq!(st.missing_parts(12 * 1024 * 1024), vec![2]);
    st.etags.insert(2, "e2".into());
    assert!(st.missing_parts(12 * 1024 * 1024).is_empty());
    assert_eq!(st.ordered_etags(), vec!["e1", "e2", "e3"]);
    let mut many = OssUploadState::default();
    for p in (1..=40u64).rev() {
        many.etags.insert(p, format!("e{p}"));
    }
    let want: Vec<String> = (1..=40u64).map(|p| format!("e{p}")).collect();
    assert_eq!(many.ordered_etags(), want);
}

#[test]
fn oss_request_pieces() {
    assert_eq!(
        oss_url("oss.example.com//", "dir/f.bin", "uploads"),
        "https://oss.example.com/dir/f.bin?uploads"
    );
    assert_eq!(part_query(3, "UP1"), "partNumber=3&uploadId=UP1");
    assert_eq!(clean_etag("\"abc\"").as_deref(), Some("abc"));
    assert_eq!(clean_etag("\"\""), None);
    assert_eq!(clean_etag("x"), Some("x".to_string()));
    assert!(completion_failed("<Error><Code>NoSuchUpload</Code></Error>"));
    assert!(!completion_failed("<CompleteMultipartUploadResult><ETag>x</ETag></CompleteMultipartUploadResult>"));
    assert!(!completion_failed("<Error>x</Error><ETag>y</ETag>"));
    assert_eq!(upload_id_of("<R><UploadId>U9</UploadId></R>").unwrap(), "U9");
    assert!(upload_id_of("<R><UploadId></UploadId></R>").is_err());
    assert!(upload_id_of("<R/>").is_err());
}
