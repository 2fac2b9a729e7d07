use kichi::browse::{selected_names, share_targets, Pick};
use kichi::pages::{route_folders, FolderPicker, TRASH_TTL_MS};
use kichi::format::NoticeKind;
use kichi::save_share::{
    after_poll, move_poll_delay_secs, new_file_ids, pick_pack_folder, retry_move_ids, share_saved,
    PollNext, PollSeen, MOVE_POLL_ATTEMPTS,
};
use kichi::shares::{SharesPage, SHARES_TTL_MS};
use kichi::types::{File, Share, ShareList};

fn entry(id: &str, name: &str, folder: bool) -> File {
    File {
        id: id.into(),
        name: name.into(),
        kind: if folder { "drive#folder".into() } else { "drive#file".into() },
        ..Default::default()
    }
}

fn share(id: &str) -> Share {
    Share { share_id: id.into(), title: format!("t{id}"), ..Default::default() }
}

fn share_ids(p: &SharesPage) -> Vec<String> {
    p.items.iter().map(|s| s.share_id.clone()).collect()
}

#[test]
fn pack_folder_prefers_remembered_id() {
    let root = vec![
        entry("f1", "转存自分享", true),
        entry("x", "Pack From Shared", false),
        entry("f2", "Pack From Shared (2)", true),
    ];
    assert_eq!(pick_pack_folder(&root, &Some("f2".into())), Some(2));
    // a stale id falls back to the name
    assert_eq!(pick_pack_folder(&root, &Some("gone".into())), Some(0));
    assert_eq!(pick_pack_folder(&root, &None), Some(0));
    // a file with the name is no folder
    let only_file = vec![entry("x", "Pack From Shared", false), entry("d", "Docs", true)];
    assert_eq!(pick_pack_folder(&only_file, &None), None);
    assert_eq!(pick_pack_folder(&[], &Some("f".into())), None);
}

#[test]
fn only_new_files_move() {
    let now = vec![entry("a", "a", false), entry("b", "b", false), entry("c", "c", true)];
    let before = vec!["b".to_string(), "zz".to_string()];
    assert_eq!(new_file_ids(&now, &before), vec!["a", "c"]);
    assert!(new_file_ids(&now, &["a".into(), "b".into(), "c".into()]).is_empty());
}

#[test]
fn move_polling_schedule() {
    assert_eq!(MOVE_POLL_ATTEMPTS, 5);
    assert_eq!(move_poll_delay_secs(0), 1);
    assert_eq!(move_poll_delay_secs(4), 5);
    assert!(matches!(after_poll(0, PollSeen::NoFolder), PollNext::Again));
    assert!(matches!(after_poll(4, PollSeen::NoFolder), PollNext::NoFolder));
    assert!(matches!(after_poll(2, PollSeen::Listed(vec![])), PollNext::Again));
    assert!(matches!(after_poll(4, PollSeen::Listed(vec![])), PollNext::NothingNew));
    match after_poll(1, PollSeen::Listed(vec!["a".into()])) {
        PollNext::Move(ids) => assert_eq!(ids, vec!["a"]),
        other => panic!("unexpected {other:?}"),
    }
}

#[test]
fn retry_move_takes_everything() {
    assert_eq!(retry_move_ids(&[]), None);
    assert_eq!(
        retry_move_ids(&[entry("a", "a", false), entry("b", "b", true)]),
        Some(vec!["a".to_string(), "b".to_string()])
    );
}

#[test]
fn saved_share_notices() {
    let dest = Some(("d1".to_string(), "电影".to_string()));
    let mut failed: Option<(String, String)> = None;
    let (k, t) = share_saved(true, &dest, &mut failed);
    assert_eq!(k, NoticeKind::Warn);
    assert_eq!(t, "转存成功, 但自动移动到「电影」失败。文件仍在「转存自分享」中");
    assert_eq!(failed, dest);
    let (k, t) = share_saved(false, &dest, &mut failed);
    assert_eq!(k, NoticeKind::Done);
    assert_eq!(t, "转存成功, 文件已移动到目标目录");
    assert_eq!(failed, dest);
    let mut none: Option<(String, String)> = None;
    let (_, t) = share_saved(true, &None, &mut none);
    assert_eq!(t, "转存成功, 但自动移动失败, 请在「转存自分享」中查看");
    assert_eq!(none, None);
    let (_, t) = share_saved(false, &None, &mut none);
    assert_eq!(t, "转存成功, 文件已保存到「转存自分享」");
}

#[test]
fn shares_page_paging_and_dedup() {
    assert_eq!(SHARES_TTL_MS, 60000);
    assert_eq!(TRASH_TTL_MS, 60000);
    let mut p = SharesPage::new();
    let ask = p.enter(1_000, SHARES_TTL_MS).unwrap();
    assert_eq!(ask.req_id, 1);
    assert!(p.answer(1, ShareList { shares: vec![share("a"), share("b")], next_page_token: Some("t".into()) }, false, 1_000));
    assert!(p.enter(30_000, SHARES_TTL_MS).is_none());
    let more = p.load_more().unwrap();
    assert_eq!(more.token, Some("t".to_string()));
    assert!(more.append);
    // an answer to the first request is now stale
    assert!(!p.answer(1, ShareList { shares: vec![share("z")], next_page_token: None }, false, 2_000));
    assert!(p.answer(2, ShareList { shares: vec![share("b"), share("c")], next_page_token: None }, true, 2_000));
    assert_eq!(share_ids(&p), vec!["a", "b", "c"]);
    assert!(p.load_more().is_none());
    p.selected = vec!["a".into(), "c".into()];
    p.remove_ids(&["a".to_string()]);
    assert_eq!(share_ids(&p), vec!["b", "c"]);
    assert_eq!(p.selected, vec!["c"]);
    p.invalidate();
    assert!(p.enter(2_001, SHARES_TTL_MS).is_some());
    p.clear();
    assert!(p.items.is_empty() && p.req == 0);
}

#[test]
fn folder_picker_walks_and_confirms() {
    let mut p = FolderPicker::new();
    assert_eq!(p.stack.len(), 1);
    let a = p.open_at_root();
    assert!(p.open && a.parent.is_none() && a.req_id == 1);
    assert!(p.answer(&None, 1, vec![entry("m", "Movies", true)]));
    let b = p.enter("m".into(), "Movies".into());
    assert_eq!(b.parent, Some("m".to_string()));
    assert!(p.folders.is_empty() && p.loading);
    // the answer for the root arrives late: dropped
    assert!(!p.answer(&None, 1, vec![entry("x", "X", true)]));
    assert!(p.answer(&Some("m".into()), 2, vec![entry("s", "Sci-fi", true)]));
    p.enter("s".into(), "Sci-fi".into());
    let c = p.crumb(1);
    assert_eq!(c.parent, Some("m".to_string()));
    assert_eq!(p.stack.len(), 2);
    assert_eq!(p.confirm(), Some(("m".to_string(), "Movies".to_string())));
    assert!(!p.open);
    p.crumb(0);
    assert_eq!(p.confirm(), None);
    p.reset();
    assert_eq!(p.stack, vec![(None, "我的云盘".to_string())]);
}

#[test]
fn folder_listings_are_routed() {
    let mut save = FolderPicker::new();
    let mut offline = FolderPicker::new();
    offline.open_at_root();
    save.open_at_root();
    // both asked with id 1: the open save-share picker takes it
    assert!(route_folders(&mut save, &mut offline, &None, 1, vec![entry("a", "A", true)]));
    assert_eq!(save.folders.len(), 1);
    assert!(offline.folders.is_empty());
    save.confirm();
    assert!(route_folders(&mut save, &mut offline, &None, 1, vec![entry("b", "B", true)]));
    assert_eq!(offline.folders[0].id, "b");
    assert!(!route_folders(&mut save, &mut offline, &Some("q".into()), 1, vec![]));
}

#[test]
fn selection_names_by_kind() {
    let files = vec![entry("a", "A", false), entry("d", "D", true), entry("b", "B", false)];
    let sel = vec!["b".to_string(), "d".to_string()];
    assert_eq!(
        selected_names(&files, &sel, Pick::All),
        vec![("d".to_string(), "D".to_string()), ("b".to_string(), "B".to_string())]
    );
    assert_eq!(selected_names(&files, &sel, Pick::Plain), vec![("b".to_string(), "B".to_string())]);
    assert_eq!(selected_names(&files, &sel, Pick::Folders), vec![("d".to_string(), "D".to_string())]);
    assert_eq!(share_targets(&files, &sel, "b").len(), 2);
    assert_eq!(share_targets(&files, &sel, "a"), vec![("a".to_string(), "A".to_string())]);
    assert_eq!(share_targets(&files, &["a".to_string()], "a"), vec![("a".to_string(), "A".to_string())]);
    assert!(share_targets(&files, &[], "zz").is_empty());
}

use kichi::save_share::SaveShareDialog;

#[test]
fn save_share_dialog_flow() {
    let mut d = SaveShareDialog::new();
    d.open = true;
    d.input = "  ".into();
    assert!(!d.can_resolve());
    assert!(d.resolve().is_none());
    assert_eq!(
        d.error.as_deref(),
        Some("无法识别分享链接, 请检查格式 (例如 https://mypikpak.com/s/xxx 或直接输入 ID)")
    );
    d.input = "https://mypikpak.com/s/ID?password=abcd".into();
    assert!(d.can_resolve());
    assert_eq!(d.resolve(), Some(("ID".to_string(), "abcd".to_string())));
    assert!(d.resolving && d.error.is_none());
    assert!(!d.can_resolve());
    // a code typed by the user is kept
    d.resolving = false;
    d.pass_code = "mine".into();
    assert_eq!(d.resolve(), Some(("ID".to_string(), "mine".to_string())));

    d.resolved(
        "ID".into(),
        "Title".into(),
        "tok".into(),
        vec![entry("a", "Alpha.mkv", false), entry("b", "beta.srt", false)],
        Some("p2".into()),
    );
    assert!(!d.resolving);
    let more = d.load_more().unwrap();
    assert_eq!((more.share_id.as_str(), more.pass_code_token.as_str(), more.page_token.as_str()), ("ID", "tok", "p2"));
    assert!(d.load_more().is_none());
    d.files_loaded(vec![entry("c", "ALPHA 2.mkv", false)], None);
    assert!(!d.loading_more);
    assert_eq!(d.files.len(), 3);

    d.filter = "alpha".into();
    assert_eq!(d.filtered(), vec![0, 2]);
    assert!(!d.all_filtered_selected());
    d.select_filtered(true);
    assert!(d.all_filtered_selected());
    assert_eq!(d.selected.len(), 2);
    d.toggle("b".into(), true);
    d.toggle("a".into(), false);
    d.filter = String::new();
    assert_eq!(d.filtered(), vec![0, 1, 2]);
    assert!(!d.all_filtered_selected());
    let mut sel = d.selected.clone();
    sel.sort();
    assert_eq!(sel, vec!["b", "c"]);
    d.select_filtered(false);
    assert!(d.selected.is_empty());
    assert!(!d.can_save());
    d.toggle("c".into(), true);
    assert!(d.can_save());

    // the root as destination sends no destination id
    d.picker.open_at_root();
    d.choose_dest();
    assert_eq!(d.dest, Some((String::new(), "我的云盘".to_string())));
    let ask = d.save().unwrap();
    assert_eq!(ask.file_ids, vec!["c"]);
    assert_eq!(ask.dest, None);
    assert!(d.saving && !d.can_save());
    d.save_failed("转存失败: x".into());
    assert!(!d.saving);
    d.dest = Some(("d9".into(), "Movies".into()));
    assert_eq!(d.save().unwrap().dest, Some("d9".to_string()));

    d.back();
    assert!(d.share_id.is_none() && d.files.is_empty() && d.selected.is_empty());
    assert!(d.save().is_none());
    d.clear();
    assert!(d.open);
    assert!(d.input.is_empty() && d.dest.is_none() && d.picker.stack.len() == 1);
}

use kichi::shares::{expiry_choice_label, link_and_code, share_request};

#[test]
fn share_creation_texts() {
    assert_eq!(expiry_choice_label(1), "1 天");
    assert_eq!(expiry_choice_label(7), "7 天");
    assert_eq!(expiry_choice_label(30), "30 天");
    assert_eq!(expiry_choice_label(-1), "永久");
    assert_eq!(expiry_choice_label(3), "永久");
    let one = vec![("i1".to_string(), "a.txt".to_string())];
    assert_eq!(share_request(&one), (vec!["i1".to_string()], "a.txt".to_string()));
    let two = vec![("i1".to_string(), "a".to_string()), ("i2".to_string(), "b".to_string())];
    assert_eq!(share_request(&two), (vec!["i1".to_string(), "i2".to_string()], "2 项".to_string()));
    assert_eq!(link_and_code("https://x/s/1", "ab12", "see https://x/s/1 code ab12"), "see https://x/s/1 code ab12");
    assert_eq!(link_and_code("https://x/s/1", "ab12", "see https://x/s/1"), "https://x/s/1 提取码: ab12");
    assert_eq!(link_and_code("https://x/s/1", "ab12", ""), "https://x/s/1 提取码: ab12");
}

use kichi::pages::{trash_meta, PagedList};
use kichi::shares::{selected_shares, share_row, ShareBadge};
use kichi::types::FileList;

#[test]
fn share_rows() {
    let s = Share {
        share_id: "s1".into(),
        share_url: "https://mypikpak.com/s/s1".into(),
        title: String::new(),
        pass_code: "abcd".into(),
        expiration_days: "7".into(),
        view_count: " 12 ".into(),
        restore_count: "".into(),
        file_num: "3".into(),
        create_time: "2024-05-01T10:20:30.000Z".into(),
        ..Default::default()
    };
    let r = share_row(&s);
    assert_eq!(r.title, "未命名分享");
    assert_eq!(r.badge, ShareBadge::Private);
    assert_eq!(r.meta, "3 个文件 · 有效期 7 天 · 浏览 12 · 转存 0 · 2024-05-01 10:20");
    assert_eq!(r.code_line.as_deref(), Some("提取码 abcd"));
    assert_eq!(r.link_and_code.as_deref(), Some("https://mypikpak.com/s/s1 提取码: abcd"));
    let gone = Share { title: "T".into(), share_status: "EXPIRED".into(), file_num: "-2".into(), ..Default::default() };
    let r = share_row(&gone);
    assert_eq!(r.title, "T");
    assert_eq!(r.badge, ShareBadge::Expired);
    assert_eq!(r.meta, "-2 个文件 · 有效期 永久 · 浏览 0 · 转存 0");
    assert_eq!(r.code_line, None);
    assert_eq!(share_row(&Share::default()).badge, ShareBadge::Public);
}

#[test]
fn shares_selection() {
    let mut p = SharesPage::new();
    p.refresh();
    p.answer(1, ShareList { shares: vec![share("a"), share("b"), share("c")], next_page_token: None }, false, 5);
    assert!(!p.all_selected());
    p.set_selected("b".into(), true);
    p.set_selected("b".into(), true);
    p.set_selected("a".into(), true);
    assert_eq!(p.selected.len(), 2);
    assert_eq!(
        selected_shares(&p.items, &p.selected),
        vec![("a".to_string(), "ta".to_string()), ("b".to_string(), "tb".to_string())]
    );
    p.set_selected("a".into(), false);
    assert_eq!(p.selected, vec!["b"]);
    p.select_all(true);
    assert_eq!(p.selected, vec!["a", "b", "c"]);
    assert!(p.all_selected());
    p.select_all(false);
    assert!(p.selected.is_empty());
}

#[test]
fn trash_selection_and_meta() {
    let mut t = PagedList::new();
    t.refresh();
    t.answer(
        1,
        FileList { files: vec![entry("a", "A", false), entry("d", "D", true)], next_page_token: None },
        false,
        1,
    );
    t.toggle("a".into());
    assert_eq!(t.selected, vec!["a"]);
    t.toggle("a".into());
    assert!(t.selected.is_empty());
    t.select_all(true);
    assert_eq!(t.selected, vec!["a", "d"]);
    assert!(t.all_selected());
    t.select_all(false);
    assert!(!t.all_selected());
    let mut f = entry("x", "x.bin", false);
    f.size = 2048;
    f.modified_time = Some("2024-01-02T03:04:05Z".into());
    assert_eq!(trash_meta(&f), "2.0 KB · 2024-01-02 03:04");
    f.delete_time = Some("2024-02-02T00:00:00Z".into());
    assert_eq!(trash_meta(&f), "2.0 KB · 2024-02-02 00:00");
    assert_eq!(trash_meta(&entry("d", "D", true)), "文件夹");
}
