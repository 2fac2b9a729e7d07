use kichi::types::{File, FileList};
use kichi::walk::{FolderWalker, WALK_MAX_FILES, WALK_PAGE_SIZE};

fn folder(id: &str, name: &str) -> File {
    File {
        id: id.into(),
        kind: "drive#folder".into(),
        name: name.into(),
        ..Default::default()
    }
}

fn file(id: &str, name: &str) -> File {
    File {
        id: id.into(),
        kind: "drive#file".into(),
        name: name.into(),
        ..Default::default()
    }
}

/// The listing of a small drive: `root` holds folder A and x.txt; A holds
/// folder B and y.txt on its first page, and (on a second page) a link back
/// to `root` and z.txt; B is empty.
fn listing(id: &str, token: Option<&str>) -> FileList {
    match (id, token) {
        ("root", None) => FileList {
            files: vec![folder("a", "A"), file("x", "x.txt")],
            next_page_token: None,
        },
        ("a", None) => FileList {
            files: vec![folder("b", "B"), file("y", "y.txt")],
            next_page_token: Some("p2".into()),
        },
        ("a", Some("p2")) => FileList {
            files: vec![folder("root", "again"), file("z", "z.txt")],
            next_page_token: None,
        },
        _ => FileList {
            files: Vec::new(),
            next_page_token: None,
        },
    }
}

#[test]
fn walks_breadth_first_and_skips_folders_seen() {
    let mut w = FolderWalker::new("  root ").unwrap();
    let mut requests = Vec::new();
    while let Some((id, token)) = w.next_request() {
        requests.push((id.clone(), token.clone()));
        w.feed(listing(&id, token.as_deref())).unwrap();
    }
    assert_eq!(
        requests,
        vec![
            ("root".to_string(), None),
            ("a".to_string(), None),
            ("a".to_string(), Some("p2".to_string())),
            ("b".to_string(), None),
        ]
    );
    let walk = w.finish();
    let dirs: Vec<Vec<String>> = walk.dirs;
    assert_eq!(
        dirs,
        vec![vec![], vec!["A".to_string()], vec!["A".to_string(), "B".to_string()]]
    );
    let files: Vec<(Vec<String>, String)> = walk
        .files
        .into_iter()
        .map(|(rel, f)| (rel, f.name))
        .collect();
    assert_eq!(
        files,
        vec![
            (vec![], "x.txt".to_string()),
            (vec!["A".to_string()], "y.txt".to_string()),
            (vec!["A".to_string()], "z.txt".to_string()),
        ]
    );
}

#[test]
fn empty_folder_id_is_rejected() {
    assert!(FolderWalker::new("   ").is_err());
    assert_eq!(WALK_PAGE_SIZE, 100);
}

#[test]
fn too_many_files_stop_the_walk() {
    let mut w = FolderWalker::new("big").unwrap();
    let (id, _) = w.next_request().unwrap();
    assert_eq!(id, "big");
    let files: Vec<File> = (0..=WALK_MAX_FILES).map(|i| file(&i.to_string(), "f")).collect();
    let err = w
        .feed(FileList {
            files,
            next_page_token: None,
        })
        .unwrap_err();
    let kichi::error::Error::Msg(m) = err;
    assert!(m.contains("20000"), "{m}");
}
