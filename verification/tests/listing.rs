use idirfein_server::files::Filedata;
use idirfein_server::listing::{
    folder_ids, get_first_sync_data, ignores, list_folder, list_folders, DirItem, EntryMetadata,
    FileEntry, FolderWalk, WalkEntry,
};
use idirfein_server::path::path_comes_before;

fn item(name: Option<&str>, is_dir: bool) -> DirItem {
    DirItem { name: name.map(str::to_string), is_dir }
}

fn walked(path: &str, size: u64) -> WalkEntry {
    WalkEntry {
        path: Some(path.to_string()),
        metadata: Some(EntryMetadata { size, modification_time: 5 }),
    }
}

fn entry(path: &str, is_file: bool) -> FileEntry {
    FileEntry { path: path.to_string(), is_file }
}

fn strings(list: &[&str]) -> Vec<String> {
    list.iter().map(|text| text.to_string()).collect()
}

fn paths(files: &[Filedata]) -> Vec<&str> {
    files.iter().map(|file| file.relative_path.as_str()).collect()
}

#[test]
fn folders_are_the_directories() {
    let items = vec![
        item(Some("music"), true),
        item(Some("notes.txt"), false),
        item(None, false),
        item(Some("books"), true),
    ];
    assert_eq!(folder_ids(&items), strings(&["music", "books"]));
    assert_eq!(folder_ids(&Vec::new()), strings(&[]));
}

#[test]
fn paths_are_ignored_by_what_they_contain() {
    let ignore = strings(&[".git", "tmp/"]);
    assert!(ignores(&ignore, "/r/f/.git/config"));
    assert!(ignores(&ignore, "/r/f/.gitignore"));
    assert!(ignores(&ignore, "/r/f/tmp/x"));
    assert!(!ignores(&ignore, "/r/f/tmp"));
    assert!(!ignores(&Vec::new(), "/r/f/tmp"));
    assert!(ignores(&strings(&[""]), "/r/f/tmp"));
}

#[test]
fn a_folder_is_listed_in_the_order_of_its_paths() {
    let entries = vec![
        walked("/r/f", 4096),
        walked("/r/f/b.txt", 3),
        walked("/r/f/a.b", 1),
        walked("/r/f/a", 4096),
        walked("/r/f/a/b", 2),
    ];
    let files = list_folder("/r", &"f".to_string(), &entries, &Vec::new());
    assert_eq!(paths(&files), ["", "a", "a/b", "a.b", "b.txt"]);
    assert_eq!(files.iter().map(|file| file.size).collect::<Vec<u64>>(), [4096, 4096, 2, 1, 3]);
    for file in &files {
        assert_eq!(file.folder_id, "f");
        assert_eq!(file.modification_time, 5);
        assert!(!file.should_delete);
    }
}

#[test]
fn entries_that_do_not_count_are_left_out() {
    let entries = vec![
        walked("/r/f/keep", 1),
        walked("/r/f/.git/config", 1),
        WalkEntry { path: Some("/r/f/unreadable".to_string()), metadata: None },
        WalkEntry {
            path: None,
            metadata: Some(EntryMetadata { size: 1, modification_time: 1 }),
        },
    ];
    let files = list_folder("/r", &"f".to_string(), &entries, &strings(&[".git"]));
    assert_eq!(paths(&files), ["keep"]);
}

#[test]
fn folders_are_listed_one_after_the_other() {
    let ids = strings(&["z", "a"]);
    let walks = vec![
        vec![walked("/r/z/2", 1), walked("/r/z/1", 1)],
        vec![walked("/r/a/0", 1)],
    ];
    let files = list_folders("/r", &ids, &walks, &Vec::new());
    let listed: Vec<(&str, &str)> =
        files.iter().map(|f| (f.folder_id.as_str(), f.relative_path.as_str())).collect();
    assert_eq!(listed, [("z", "1"), ("z", "2"), ("a", "0")]);
}

#[test]
fn first_sync_data_holds_the_files_of_each_folder() {
    let folders = vec![
        FolderWalk {
            folder_id: "f".to_string(),
            entries: vec![
                entry("/r/f", false),
                entry("/r/f/b", true),
                entry("/r/f/a", false),
                entry("/r/f/a/c", true),
                entry("/r/f/a.c", true),
            ],
        },
        FolderWalk { folder_id: "empty".to_string(), entries: vec![entry("/r/empty", false)] },
    ];
    let data = get_first_sync_data("/r", &folders);
    assert_eq!(data.get("f"), Some(&strings(&["a.c", "a/c", "b"])));
    assert_eq!(data.get("empty"), Some(&strings(&[])));
    assert!(data.get("other").is_none());
}

#[test]
fn the_last_folder_of_a_name_counts() {
    let walk = |path: &str| FolderWalk {
        folder_id: "f".to_string(),
        entries: vec![entry(path, true)],
    };
    let data = get_first_sync_data("/r", &vec![walk("/r/f/one"), walk("/r/f/two")]);
    assert_eq!(data.get("f"), Some(&strings(&["two"])));
}

#[test]
fn the_paths_of_a_folder_ascend_and_folders_keep_their_order() {
    let ids = strings(&["z", "m", "a"]);
    let names = ["b", "a.b", "a/b", "a", "c/../d", "c", "B"];
    let walks: Vec<Vec<WalkEntry>> = ids
        .iter()
        .map(|id| names.iter().map(|name| walked(&format!("/r/{}/{}", id, name), 1)).collect())
        .collect();
    let files = list_folders("/r", &ids, &walks, &Vec::new());
    assert_eq!(files.len(), 21);
    let place = |file: &Filedata| ids.iter().position(|id| *id == file.folder_id).unwrap();
    for pair in files.windows(2) {
        assert!(place(&pair[0]) <= place(&pair[1]));
        if pair[0].folder_id == pair[1].folder_id {
            assert!(path_comes_before(&pair[0].relative_path, &pair[1].relative_path));
        }
    }
}
