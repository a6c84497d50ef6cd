use fast_rsync::{apply, diff, Signature, SignatureOptions};
use idirfein_server::files::{is_same_file, list_has_file, position_of_file};
use idirfein_server::listing::{EntryMetadata, WalkEntry};
use idirfein_server::path::is_same_path;
use idirfein_server::requests::{PlannedRequest, ResponseAction, ServerAction};
use idirfein_server::rsync::{is_signature_answerable, is_signature_length_possible};
use idirfein_server::sync_utils::{
    answer_signature, get_ideal_block_size, known_folder_ids, previous_list_filename,
    previously_synced_folder_ids, replace_with_applied, ClientFileResponse, Filedata,
    ServerFileRequest, SyncManager,
};

fn file(folder_id: &str, path: &str, size: u64, modification_time: i64) -> Filedata {
    Filedata {
        folder_id: folder_id.to_string(),
        relative_path: path.to_string(),
        size,
        modification_time,
        should_delete: false,
    }
}

fn strings(list: &[&str]) -> Vec<String> {
    list.iter().map(|text| text.to_string()).collect()
}

fn manager(server: Vec<Filedata>, client: Vec<Filedata>) -> SyncManager {
    SyncManager {
        root_dir: "/root/sync".to_string(),
        list_of_folder_ids: strings(&["f", "g"]),
        server_file_list: server,
        previously_synced_server_file_list: Vec::new(),
        previously_synced_list_of_folder_ids: strings(&["f", "g"]),
        client_file_list: client,
        client_ignore_list: Vec::new(),
    }
}

fn walked(path: &str, size: u64) -> WalkEntry {
    WalkEntry {
        path: Some(path.to_string()),
        metadata: Some(EntryMetadata { size, modification_time: 9 }),
    }
}

fn signature_of(data: &[u8], block_size: u32, crypto_hash_size: u32) -> Vec<u8> {
    Signature::calculate(data, SignatureOptions { block_size, crypto_hash_size }).into_serialized()
}

fn delta_of(signature: Vec<u8>, data: &[u8]) -> Vec<u8> {
    let mut delta = Vec::new();
    diff(&Signature::deserialize(signature).unwrap().index(), data, &mut delta).unwrap();
    delta
}

fn header(kind: u32, block_size: u32, hash_size: u32) -> Vec<u8> {
    let mut bytes = kind.to_be_bytes().to_vec();
    bytes.extend(block_size.to_be_bytes());
    bytes.extend(hash_size.to_be_bytes());
    bytes
}

const MD4: u32 = 0x72730136;
const BLAKE2: u32 = 0x72730137;

fn old_data() -> Vec<u8> {
    (0..5000u32).map(|i| (i * i % 251) as u8).collect()
}

fn new_data() -> Vec<u8> {
    let mut data = old_data();
    data.splice(1000..1010, b"something else".iter().copied());
    data.extend(b"and more");
    data
}

#[test]
fn files_are_the_same_by_folder_and_path() {
    let one = file("f", "a/b", 1, 1);
    assert!(is_same_file(&one, &file("f", "a//b/", 2, 3)));
    assert!(!is_same_file(&one, &file("g", "a/b", 1, 1)));
    assert!(!is_same_file(&one, &file("f", "a", 1, 1)));
}

#[test]
fn the_first_record_of_a_file_is_found() {
    let list = vec![file("f", "x", 1, 1), file("f", "a", 1, 1), file("f", "a", 2, 2)];
    assert_eq!(position_of_file(&list, &file("f", "a", 0, 0)), Some(1));
    assert_eq!(position_of_file(&list, &file("f", "b", 0, 0)), None);
    assert!(list_has_file(&list, &file("f", "x", 0, 0)));
    assert!(!list_has_file(&list, &file("g", "x", 0, 0)));
}

#[test]
fn previous_lists_are_named_after_the_client() {
    assert_eq!(previous_list_filename(".previous_", "alice", "_files"), ".previous_alice_files");
}

#[test]
fn previous_folders_are_read_or_unknown() {
    let read = |json: &str| previously_synced_folder_ids(Some(json.to_string()));
    assert_eq!(read("[\"f\", \"g\"]"), strings(&["f", "g"]));
    assert_eq!(read("[]"), strings(&[]));
    assert_eq!(read("[\"f\""), strings(&[]));
    assert_eq!(read("{}"), strings(&[]));
    assert_eq!(read(""), strings(&[]));
    assert_eq!(previously_synced_folder_ids(None), strings(&[]));
}

#[test]
fn a_new_manager_lists_the_server_and_marks_what_is_gone() {
    let walks = vec![vec![walked("/r/f", 4096), walked("/r/f/b", 2), walked("/r/f/a", 1)]];
    let gone = file("f", "gone", 7, 3);
    let manager = SyncManager::new(
        "/r".to_string(),
        strings(&["f"]),
        &walks,
        Some(vec![file("f", "a", 1, 1), gone.clone(), file("h", "b", 2, 2)]),
        strings(&["f", "h"]),
        vec![file("f", "a", 1, 1)],
        strings(&["nothing"]),
    );
    let listed: Vec<&str> =
        manager.server_file_list.iter().map(|f| f.relative_path.as_str()).collect();
    assert_eq!(listed, ["", "a", "b"]);
    assert!(manager.server_file_list.iter().all(|f| !f.should_delete));
    assert_eq!(manager.client_file_list.len(), 3);
    assert!(!manager.client_file_list[0].should_delete);
    assert!(is_same_file(&manager.client_file_list[1], &gone));
    assert!(manager.client_file_list[1].should_delete);
    assert_eq!(manager.client_file_list[1].size, 7);
    assert_eq!(manager.client_file_list[1].modification_time, 3);
    assert_eq!(manager.client_file_list[2].folder_id, "h");
    assert!(manager.client_file_list[2].should_delete);
    assert_eq!(manager.previously_synced_server_file_list.len(), 3);
    assert_eq!(manager.previously_synced_list_of_folder_ids, strings(&["f", "h"]));
    assert_eq!(manager.client_ignore_list, strings(&["nothing"]));
    assert_eq!(manager.root_dir, "/r");
}

#[test]
fn nothing_is_gone_where_nothing_is_known() {
    let manager = SyncManager::new(
        "/r".to_string(),
        strings(&["f"]),
        &vec![vec![walked("/r/f/a", 1)]],
        None,
        Vec::new(),
        vec![file("f", "x", 1, 1)],
        Vec::new(),
    );
    assert_eq!(manager.client_file_list.len(), 1);
    assert!(manager.previously_synced_server_file_list.is_empty());
}

#[test]
fn listing_again_replaces_the_server_list() {
    let mut manager = manager(vec![file("f", "old", 1, 1)], Vec::new());
    manager.previously_synced_server_file_list = vec![file("f", "old", 1, 1)];
    manager.get_server_file_list(&vec![vec![walked("/root/sync/f/new", 1)], Vec::new()]);
    assert_eq!(manager.server_file_list.len(), 1);
    assert_eq!(manager.server_file_list[0].relative_path, "new");
    assert_eq!(manager.client_file_list.len(), 1);
    assert!(manager.client_file_list[0].should_delete);
}

fn record(file: &Filedata) -> (String, String, u64, i64, bool) {
    (
        file.folder_id.clone(),
        file.relative_path.clone(),
        file.size,
        file.modification_time,
        file.should_delete,
    )
}

fn records(files: &[Filedata]) -> Vec<(String, String, u64, i64, bool)> {
    files.iter().map(record).collect()
}

#[test]
fn listing_again_repeats_the_deletions() {
    let mut manager = manager(Vec::new(), vec![file("f", "a", 1, 1)]);
    manager.previously_synced_server_file_list = vec![file("f", "gone", 7, 3)];
    let walks =
        vec![vec![walked("/root/sync/f/b", 1), walked("/root/sync/f/a", 2)], Vec::new()];
    manager.get_server_file_list(&walks);
    let listed = records(&manager.server_file_list);
    let clients = records(&manager.client_file_list);
    assert_eq!(clients.len(), 2);
    manager.get_server_file_list(&walks);
    assert_eq!(records(&manager.server_file_list), listed);
    let mut repeated = clients.clone();
    repeated.push(clients[1].clone());
    assert_eq!(records(&manager.client_file_list), repeated);
}

#[test]
fn starting_is_listing_once() {
    let walks =
        vec![vec![walked("/root/sync/f/b", 1), walked("/root/sync/f/a", 2)], Vec::new()];
    let gone = vec![file("f", "gone", 7, 3)];
    let new = SyncManager::new(
        "/root/sync".to_string(),
        strings(&["f", "g"]),
        &walks,
        Some(gone.clone()),
        strings(&["f", "g"]),
        vec![file("f", "a", 1, 1)],
        Vec::new(),
    );
    let mut listed = manager(Vec::new(), vec![file("f", "a", 1, 1)]);
    listed.previously_synced_server_file_list = gone;
    listed.get_server_file_list(&walks);
    assert_eq!(records(&new.server_file_list), records(&listed.server_file_list));
    assert_eq!(records(&new.client_file_list), records(&listed.client_file_list));
    assert_eq!(new.root_dir, listed.root_dir);
    assert_eq!(new.list_of_folder_ids, listed.list_of_folder_ids);
}

#[test]
fn ignoring_more_lists_fewer() {
    let walks = vec![
        vec![
            walked("/root/sync/f", 1),
            walked("/root/sync/f/b.tmp", 1),
            walked("/root/sync/f/a", 2),
            walked("/root/sync/f/.git/a", 2),
        ],
        vec![walked("/root/sync/g/c.tmp", 3), walked("/root/sync/g/d", 4)],
    ];
    let listed = |ignore: &[&str]| {
        let mut manager = manager(Vec::new(), Vec::new());
        manager.client_ignore_list = strings(ignore);
        manager.get_server_file_list(&walks);
        records(&manager.server_file_list)
    };
    let all = listed(&[".git"]);
    assert_eq!(all.len(), 5);
    let fewer: Vec<_> = all.iter().filter(|r| !r.1.contains(".tmp")).cloned().collect();
    assert_eq!(listed(&[".tmp", ".git"]), fewer);
    assert_eq!(fewer.len(), 3);
    assert!(listed(&[""]).is_empty());
}

#[test]
fn a_delta_is_sent_and_its_lack_is_ignored() {
    assert!(matches!(
        answer_signature(3, Ok(Ok(vec![1, 2]))),
        ResponseAction::Reply(ServerFileRequest::ApplyDiff(3, diff)) if diff == [1, 2]
    ));
    let unread = Signature::deserialize(Vec::new()).err().unwrap();
    assert!(matches!(answer_signature(3, Err(unread)), ResponseAction::Ignore));
    let unsupported = Signature::deserialize(header(BLAKE2, 8, 16)).unwrap();
    let refused = diff(&unsupported.index(), b"data", &mut Vec::new()).err().unwrap();
    assert!(matches!(answer_signature(3, Ok(Err(refused))), ResponseAction::Ignore));
}

#[test]
fn a_file_takes_on_what_was_applied() {
    let faulty = apply(b"", b"", &mut Vec::new());
    assert!(faulty.is_err());
    for outcome in [Ok(()), faulty] {
        assert!(matches!(
            replace_with_applied("/r/f/a".to_string(), (vec![1, 2], outcome)),
            ResponseAction::ReplaceFile(path, data) if path == "/r/f/a" && data == [1, 2]
        ));
    }
}

#[test]
fn folders_that_were_not_read_are_unknown() {
    assert_eq!(known_folder_ids(Ok(strings(&["f"]))), strings(&["f"]));
    let error = serde_json::from_str::<Vec<String>>("").err().unwrap();
    assert_eq!(known_folder_ids(Err(error)), strings(&[]));
}

#[test]
fn files_stand_below_the_root() {
    let manager = manager(Vec::new(), Vec::new());
    assert_eq!(manager.file_path(&file("f", "a/b.txt", 1, 1)), "/root/sync/f/a/b.txt");
    assert!(matches!(
        manager.delete_file_on_server(&file("f", "a", 1, 1)),
        ServerAction::DeleteFile(path) if path == "/root/sync/f/a"
    ));
}

#[test]
fn the_server_makes_folders_and_deletes_what_is_marked() {
    let mut marked = file("f", "gone", 1, 1);
    marked.should_delete = true;
    let mut marked_elsewhere = file("new", "gone", 1, 1);
    marked_elsewhere.should_delete = true;
    let manager = manager(
        Vec::new(),
        vec![file("f", "a", 1, 1), file("new", "b", 1, 1), marked, marked_elsewhere],
    );
    let actions: Vec<String> = manager
        .server_actions()
        .into_iter()
        .map(|action| match action {
            ServerAction::CreateDirectory(path) => format!("mkdir {}", path),
            ServerAction::DeleteFile(path) => format!("rm {}", path),
        })
        .collect();
    assert_eq!(
        actions,
        [
            "mkdir /root/sync/new",
            "rm /root/sync/f/gone",
            "mkdir /root/sync/new",
            "rm /root/sync/new/gone",
        ]
    );
}

#[test]
fn new_folders_are_announced() {
    let mut manager = manager(Vec::new(), Vec::new());
    manager.previously_synced_list_of_folder_ids = strings(&["g", "h"]);
    let requests = manager.compare_remote_file_list(&Vec::new());
    assert_eq!(requests.len(), 1);
    assert!(matches!(&requests[0], ServerFileRequest::CreateFolder(id) if id == "f"));
}

#[test]
fn each_client_file_gets_what_it_calls_for() {
    let mut deleted = file("f", "deleted", 100, 1);
    deleted.should_delete = true;
    let server = vec![
        file("f", "same", 100, 1),
        file("f", "older_here", 5000, 1),
        file("f", "newer_here", 100, 9),
        deleted,
        file("g", "only_here", 100, 1),
        file("f", "as_old", 100, 4),
    ];
    let client = vec![
        file("f", "unknown", 1, 1),
        file("f", "same", 100, 7),
        file("f", "older_here", 6000, 2),
        file("f", "newer_here", 200, 8),
        file("f", "deleted", 100, 1),
        file("f", "as_old", 99, 4),
    ];
    let manager = manager(server, client);
    let planned = manager.plan_requests();
    assert_eq!(planned.len(), 6);
    assert!(matches!(planned[0], PlannedRequest::RequestNewFile(0)));
    assert!(matches!(planned[1], PlannedRequest::RequestDiff(2, 1)));
    assert!(matches!(planned[2], PlannedRequest::RequestSignature(3)));
    assert!(matches!(planned[3], PlannedRequest::Delete(4)));
    assert!(matches!(planned[4], PlannedRequest::RequestDiff(5, 5)));
    assert!(matches!(planned[5], PlannedRequest::CreateFile(4)));
    assert_eq!(
        manager.files_to_read(),
        strings(&["/root/sync/f/older_here", "/root/sync/f/as_old", "/root/sync/g/only_here"])
    );
    let contents = vec![old_data(), vec![3; 100], vec![7; 100]];
    assert!(manager.can_compare(&contents));
    let requests = manager.compare_remote_file_list(&contents);
    assert_eq!(requests.len(), 6);
    assert!(matches!(requests[0], ServerFileRequest::RequestNewFile(0)));
    let block_size = get_ideal_block_size(5000);
    assert_eq!(block_size, 72);
    assert!(matches!(
        &requests[1],
        ServerFileRequest::RequestDiff(2, bytes) if *bytes == signature_of(&old_data(), 72, 16)
    ));
    assert!(matches!(requests[2], ServerFileRequest::RequestSignature(3)));
    assert!(matches!(requests[3], ServerFileRequest::Delete(4)));
    assert!(matches!(
        &requests[4],
        ServerFileRequest::RequestDiff(5, bytes) if *bytes == signature_of(&[3; 100], 8, 16)
    ));
    assert!(matches!(
        &requests[5],
        ServerFileRequest::CreateFile(data, path, id)
            if *data == vec![7; 100] && path == "only_here" && id == "g"
    ));
}

#[test]
fn files_only_the_server_has_are_sent() {
    let manager = manager(
        vec![file("f", "a", 3, 1), file("f", "x//y", 5, 1), file("g", "b", 2, 2)],
        vec![file("f", "x/y", 5, 1), file("h", "a", 3, 1)],
    );
    let planned = manager.plan_requests();
    assert_eq!(planned.len(), 3);
    assert!(matches!(planned[0], PlannedRequest::RequestNewFile(1)));
    assert!(matches!(planned[1], PlannedRequest::CreateFile(0)));
    assert!(matches!(planned[2], PlannedRequest::CreateFile(2)));
    assert_eq!(manager.files_to_read(), strings(&["/root/sync/f/a", "/root/sync/g/b"]));
    let contents = vec![vec![1, 2, 3], vec![4, 5]];
    assert!(manager.can_compare(&contents));
    let requests = manager.compare_remote_file_list(&contents);
    assert_eq!(requests.len(), 3);
    assert!(matches!(
        &requests[1],
        ServerFileRequest::CreateFile(data, path, id)
            if *data == [1, 2, 3] && path == "a" && id == "f"
    ));
    assert!(matches!(
        &requests[2],
        ServerFileRequest::CreateFile(data, path, id) if *data == [4, 5] && path == "b" && id == "g"
    ));
}

#[test]
fn one_server_file_and_no_client_file_give_one_request() {
    let manager = manager(vec![file("f", "small", 4, 1)], Vec::new());
    let requests = manager.compare_remote_file_list(&vec![b"data".to_vec()]);
    assert_eq!(requests.len(), 1);
    assert!(matches!(
        &requests[0],
        ServerFileRequest::CreateFile(data, path, id)
            if data == b"data" && path == "small" && id == "f"
    ));
}

#[test]
fn nothing_is_asked_where_both_sides_are_in_step() {
    let both = vec![file("f", "a", 1, 1), file("g", "b", 2, 2)];
    let manager = manager(both.clone(), both);
    assert!(manager.plan_requests().is_empty());
    assert!(manager.files_to_read().is_empty());
    assert!(manager.server_actions().is_empty());
}

#[test]
fn a_deleted_file_is_asked_for_anew() {
    let manager = SyncManager::new(
        "/r".to_string(),
        strings(&["f"]),
        &vec![Vec::new()],
        Some(vec![file("f", "gone", 7, 3)]),
        strings(&["f"]),
        Vec::new(),
        Vec::new(),
    );
    assert!(matches!(manager.plan_requests()[0], PlannedRequest::RequestNewFile(0)));
    assert!(matches!(
        &manager.server_actions()[0],
        ServerAction::DeleteFile(path) if path == "/r/f/gone"
    ));
}

#[test]
fn small_files_cannot_be_compared_by_their_blocks() {
    let small = manager(vec![file("f", "a", 15, 1)], vec![file("f", "a", 16, 1)]);
    assert!(!small.can_compare(&vec![vec![0; 15]]));
    let larger = manager(vec![file("f", "a", 16, 1)], vec![file("f", "a", 15, 1)]);
    assert!(larger.can_compare(&vec![vec![0; 16]]));
    assert!(!larger.can_compare(&Vec::new()));
    assert!(!larger.can_compare(&vec![vec![0; 16], Vec::new()]));
}

#[test]
fn signatures_are_as_long_as_their_blocks_call_for() {
    assert_eq!(signature_of(&[1; 100], 8, 16).len(), 12 + 13 * 20);
    assert_eq!(signature_of(&[], 8, 16).len(), 12);
    assert!(is_signature_length_possible(100, 8, 16));
    assert!(!is_signature_length_possible(usize::MAX, 1, 16));
}

#[test]
fn new_files_are_written() {
    let manager = manager(Vec::new(), vec![file("f", "a", 1, 1)]);
    let response = ClientFileResponse::NewFile(0, vec![1, 2, 3]);
    assert!(manager.can_handle(&response));
    assert_eq!(manager.file_to_read(&response), None);
    assert!(matches!(
        manager.handle_client_file_response(response, &Vec::new()),
        ResponseAction::WriteFile(path, data) if path == "/root/sync/f/a" && data == [1, 2, 3]
    ));
}

#[test]
fn a_signature_is_answered_with_the_way_to_the_server_file() {
    let manager = manager(Vec::new(), vec![file("f", "a", 1, 1)]);
    let signature = signature_of(&old_data(), 72, 16);
    let response = ClientFileResponse::Signature(0, signature.clone());
    assert!(manager.can_handle(&response));
    assert_eq!(manager.file_to_read(&response).as_deref(), Some("/root/sync/f/a"));
    let action = manager.handle_client_file_response(response, &new_data());
    let delta = match action {
        ResponseAction::Reply(ServerFileRequest::ApplyDiff(0, delta)) => delta,
        other => panic!("{:?}", other),
    };
    assert_eq!(delta, delta_of(signature, &new_data()));
    let mut patched = Vec::new();
    apply(&old_data(), &delta, &mut patched).unwrap();
    assert_eq!(patched, new_data());
}

#[test]
fn a_signature_of_nothing_is_answered_with_all_the_data() {
    let manager = manager(Vec::new(), vec![file("f", "a", 1, 1)]);
    let response = ClientFileResponse::Signature(0, signature_of(&[], 8, 16));
    let action = manager.handle_client_file_response(response, &new_data());
    let delta = match action {
        ResponseAction::Reply(ServerFileRequest::ApplyDiff(0, delta)) => delta,
        other => panic!("{:?}", other),
    };
    for base in [Vec::new(), old_data()] {
        let mut patched = Vec::new();
        apply(&base, &delta, &mut patched).unwrap();
        assert_eq!(patched, new_data());
    }
}

#[test]
fn a_diff_is_applied_to_the_server_file() {
    let manager = manager(Vec::new(), vec![file("f", "a", 1, 1)]);
    let delta = delta_of(signature_of(&old_data(), 72, 16), &new_data());
    let response = ClientFileResponse::Diff(0, delta);
    assert!(manager.can_handle(&response));
    assert_eq!(manager.file_to_read(&response).as_deref(), Some("/root/sync/f/a"));
    assert!(matches!(
        manager.handle_client_file_response(response, &old_data()),
        ResponseAction::ReplaceFile(path, data) if path == "/root/sync/f/a" && data == new_data()
    ));
}

#[test]
fn a_requested_diff_brings_the_server_in_step() {
    let manager = manager(vec![file("f", "a", 5000, 1)], vec![file("f", "a", 5012, 2)]);
    let requests = manager.compare_remote_file_list(&vec![old_data()]);
    let signature = match &requests[0] {
        ServerFileRequest::RequestDiff(0, signature) => signature.clone(),
        other => panic!("{:?}", other),
    };
    let response = ClientFileResponse::Diff(0, delta_of(signature, &new_data()));
    assert!(matches!(
        manager.handle_client_file_response(response, &old_data()),
        ResponseAction::ReplaceFile(_, data) if data == new_data()
    ));
}

fn tells_blocks_apart(base: &[u8], data: &[u8], block_size: u32, hash_size: u32) -> bool {
    let signed = |bytes: &[u8]| signature_of(bytes, block_size, hash_size);
    base.chunks(block_size as usize).all(|block| {
        data.windows(block_size as usize)
            .all(|window| block == window || signed(block) != signed(window))
    })
}

/// Sends the server's data to a client, and a client's data to the server, by way of a signature.
fn exchange(base: &[u8], data: &[u8], block_size: u32, hash_size: u32) -> (Vec<u8>, Vec<u8>) {
    let manager = manager(Vec::new(), vec![file("f", "a", 1, 1)]);
    let signature = signature_of(base, block_size, hash_size);
    let response = ClientFileResponse::Signature(0, signature.clone());
    let delta = match manager.handle_client_file_response(response, &data.to_vec()) {
        ResponseAction::Reply(ServerFileRequest::ApplyDiff(0, delta)) => delta,
        other => panic!("{:?}", other),
    };
    let mut patched = Vec::new();
    let _ = apply(base, &delta, &mut patched);
    let response = ClientFileResponse::Diff(0, delta_of(signature, data));
    match manager.handle_client_file_response(response, &base.to_vec()) {
        ResponseAction::ReplaceFile(_, written) => (patched, written),
        other => panic!("{:?}", other),
    }
}

#[test]
fn deltas_lead_to_the_data_where_blocks_are_told_apart() {
    let mut state: u64 = 7;
    let mut next = |bound: u64| {
        state = state.wrapping_mul(6364136223846793005).wrapping_add(1442695040888963407);
        (state >> 33) % bound
    };
    let mut told_apart = 0;
    for _ in 0..3000 {
        let block_size = 1 + next(5) as u32;
        let hash_size = [0, 0, 1, 16][next(4) as usize];
        let letters = 2 + next(3);
        let base: Vec<u8> = (0..next(24)).map(|_| next(letters) as u8).collect();
        let mut data: Vec<u8> = (0..next(24)).map(|_| next(letters) as u8).collect();
        if next(2) == 0 {
            let at = next(1 + data.len() as u64) as usize;
            data.splice(at..at, base.iter().copied());
        }
        if tells_blocks_apart(&base, &data, block_size, hash_size) {
            told_apart += 1;
            assert_eq!(
                exchange(&base, &data, block_size, hash_size),
                (data.clone(), data.clone()),
                "{:?} {:?} {} {}",
                base,
                data,
                block_size,
                hash_size
            );
        }
    }
    assert!(told_apart > 1000);
}

#[test]
fn deltas_can_lead_astray_where_blocks_are_taken_for_others() {
    let (base, data) = ([0, 2, 0], [1, 0, 1]);
    assert!(!tells_blocks_apart(&base, &data, 3, 0));
    assert_eq!(exchange(&base, &data, 3, 0), (base.to_vec(), base.to_vec()));
    assert!(tells_blocks_apart(&base, &data, 3, 1));
    assert_eq!(exchange(&base, &data, 3, 1), (data.to_vec(), data.to_vec()));
}

#[test]
fn the_same_file_has_one_location() {
    let manager = manager(Vec::new(), Vec::new());
    let one = manager.file_path(&file("f", "a/b", 1, 1));
    let other = manager.file_path(&file("f", "a//b/", 2, 2));
    assert!(is_same_path(&one, &other));
}

#[test]
fn a_faulty_diff_leaves_what_was_written_before_the_fault() {
    let manager = manager(Vec::new(), vec![file("f", "a", 1, 1)]);
    for (delta, written) in [(Vec::new(), 0usize), (vec![1, 2, 3, 4], 0)] {
        let response = ClientFileResponse::Diff(0, delta);
        assert!(matches!(
            manager.handle_client_file_response(response, &old_data()),
            ResponseAction::ReplaceFile(_, data) if data.len() == written
        ));
    }
    let mut cut = delta_of(signature_of(&[], 8, 16), b"hello");
    assert_eq!(cut.pop(), Some(0));
    let response = ClientFileResponse::Diff(0, cut);
    assert!(matches!(
        manager.handle_client_file_response(response, &old_data()),
        ResponseAction::ReplaceFile(_, data) if data == b"hello"
    ));
}

#[test]
fn unknown_files_are_ignored() {
    let manager = manager(Vec::new(), vec![file("f", "a", 1, 1)]);
    for response in [
        ClientFileResponse::NewFile(1, vec![1]),
        ClientFileResponse::Signature(1, signature_of(&[1; 20], 8, 16)),
        ClientFileResponse::Signature(1, header(MD4, 0, 16)),
        ClientFileResponse::Diff(usize::MAX, vec![1]),
    ] {
        assert!(manager.can_handle(&response));
        assert_eq!(manager.file_to_read(&response), None);
        assert!(matches!(
            manager.handle_client_file_response(response.clone(), &Vec::new()),
            ResponseAction::Ignore
        ));
    }
}

#[test]
fn signatures_that_do_not_parse_are_ignored() {
    let manager = manager(Vec::new(), vec![file("f", "a", 1, 1)]);
    let mut cut = signature_of(&[1; 20], 8, 16);
    cut.pop();
    for bytes in [Vec::new(), header(MD4, 8, 16)[..11].to_vec(), header(1, 8, 16), cut] {
        assert!(Signature::deserialize(bytes.clone()).is_err());
        let response = ClientFileResponse::Signature(0, bytes);
        assert!(manager.can_handle(&response));
        assert_eq!(manager.file_to_read(&response), None);
        assert!(matches!(
            manager.handle_client_file_response(response, &old_data()),
            ResponseAction::Ignore
        ));
    }
}

#[test]
fn signatures_of_another_kind_are_read_and_ignored() {
    let manager = manager(Vec::new(), vec![file("f", "a", 1, 1)]);
    for bytes in [header(BLAKE2, 8, 16), header(BLAKE2, 0, 16), header(MD4, 8, 17)] {
        assert!(Signature::deserialize(bytes.clone()).is_ok());
        let response = ClientFileResponse::Signature(0, bytes);
        assert!(manager.can_handle(&response));
        assert_eq!(manager.file_to_read(&response).as_deref(), Some("/root/sync/f/a"));
        assert!(matches!(
            manager.handle_client_file_response(response, &old_data()),
            ResponseAction::Ignore
        ));
    }
}

#[test]
fn signatures_of_empty_blocks_cannot_be_answered() {
    let manager = manager(Vec::new(), vec![file("f", "a", 1, 1)]);
    assert!(!is_signature_answerable(&header(MD4, 0, 16)));
    assert!(!manager.can_handle(&ClientFileResponse::Signature(0, header(MD4, 0, 16))));
    assert!(is_signature_answerable(&header(MD4, 1, 16)));
    assert!(is_signature_answerable(&Vec::new()));
}
