//! Which requests bring a client in step with the server, and what follows from a client's answer.

use vstd::prelude::*;

use crate::block_size::ideal_block_size;
use crate::files::{FiledataView, find_file, has_file, law_find_file, same_file};
use crate::lists::{
    lemma_select_all, lemma_select_members, lemma_select_nothing, lemma_select_prefix,
    lemma_select_step, select,
};
use crate::path::{
    components, is_absolute, joined, law_joined_path_lies_below_base, law_joining_keeps_paths_same,
    lies_below, same_path, steps_up,
};
use crate::requests::{ActionView, PlannedView, RequestView, ResponseActionView, ResponseView};
use crate::rsync::{
    distinguishes, identifies, is_signature_of, law_signature_is_supported, leads_to, restores,
    rsync_delta, rsync_patched, rsync_signature, signature_answerable, signature_length,
    signature_parses, signature_supported,
};

verus! {

/// How many bytes of each block's hash go into a signature.
pub const DEFAULT_CRYPTO_HASH_SIZE: u32 = 16;

/// What a synchronisation knows of the two sides.
pub struct SyncState {
    pub root_dir: Seq<char>,
    pub list_of_folder_ids: Seq<Seq<char>>,
    pub server_file_list: Seq<FiledataView>,
    pub previously_synced_server_file_list: Seq<FiledataView>,
    pub previously_synced_list_of_folder_ids: Seq<Seq<char>>,
    pub client_file_list: Seq<FiledataView>,
    pub client_ignore_list: Seq<Seq<char>>,
}

/// Where a file stands on the server's disk.
pub open spec fn file_location(root_dir: Seq<char>, file: FiledataView) -> Seq<char> {
    joined(joined(root_dir, file.folder_id), file.relative_path)
}

/// The files of `previous` that `current` no longer has, marked for deletion.
pub open spec fn deletions(previous: Seq<FiledataView>, current: Seq<FiledataView>) -> Seq<
    FiledataView,
> {
    select(
        previous,
        |file: FiledataView| !has_file(current, file),
        |file: FiledataView| FiledataView { should_delete: true, ..file },
    )
}

/// The folders that the client does not have yet.
pub open spec fn plan_folders(folder_ids: Seq<Seq<char>>, previous: Seq<Seq<char>>) -> Seq<
    PlannedView,
> {
    select(
        folder_ids,
        |id: Seq<char>| !previous.contains(id),
        |id: Seq<char>| PlannedView::CreateFolder(id),
    )
}

/// What to ask for about the client file at `index`. A file that the server has not is sent whole,
/// one that the server has deleted is deleted, and where the sizes differ the newer side wins.
pub open spec fn plan_client_file(
    index: int,
    client_file: FiledataView,
    server_files: Seq<FiledataView>,
) -> Option<PlannedView> {
    match find_file(server_files, client_file) {
        None => Some(PlannedView::RequestNewFile(index)),
        Some(found) => {
            let server_file = server_files[found];
            if server_file.should_delete {
                Some(PlannedView::Delete(index))
            } else if client_file.size == server_file.size {
                None
            } else if client_file.modification_time >= server_file.modification_time {
                Some(PlannedView::RequestDiff(index, found))
            } else {
                Some(PlannedView::RequestSignature(index))
            }
        },
    }
}

/// What to ask for about each of the client's files in turn.
pub open spec fn plan_client_files(
    client_files: Seq<FiledataView>,
    server_files: Seq<FiledataView>,
) -> Seq<PlannedView>
    decreases client_files.len(),
{
    if client_files.len() == 0 {
        Seq::empty()
    } else {
        let before = plan_client_files(client_files.drop_last(), server_files);
        match plan_client_file(client_files.len() - 1, client_files.last(), server_files) {
            Some(planned) => before.push(planned),
            None => before,
        }
    }
}

/// The server's files that `known` has no record of, to be sent to the client.
pub open spec fn plan_unknown_files(
    server_files: Seq<FiledataView>,
    known: Seq<FiledataView>,
) -> Seq<PlannedView>
    decreases server_files.len(),
{
    if server_files.len() == 0 {
        Seq::empty()
    } else {
        let before = plan_unknown_files(server_files.drop_last(), known);
        if has_file(known, server_files.last()) {
            before
        } else {
            before.push(PlannedView::CreateFile(server_files.len() - 1))
        }
    }
}

/// All that is asked of the client: the new folders, then what its own files call for, then the
/// server's files that the client's list does not have.
pub open spec fn plan(state: SyncState) -> Seq<PlannedView> {
    plan_folders(state.list_of_folder_ids, state.previously_synced_list_of_folder_ids)
        + plan_client_files(state.client_file_list, state.server_file_list) + plan_unknown_files(
        state.server_file_list,
        state.client_file_list,
    )
}

/// The server file whose data a planned request needs.
pub open spec fn file_needed(planned: PlannedView) -> Option<int> {
    match planned {
        PlannedView::RequestDiff(_, server) => Some(server),
        PlannedView::CreateFile(server) => Some(server),
        _ => None,
    }
}

/// The server files whose data a plan needs, in turn.
pub open spec fn files_needed(planned: Seq<PlannedView>) -> Seq<int> {
    select(planned, |p: PlannedView| file_needed(p) is Some, |p: PlannedView| file_needed(p)->0)
}

/// The request that a planned one becomes with the data of the file that it needs.
pub open spec fn completed(
    planned: PlannedView,
    server_files: Seq<FiledataView>,
    data: Seq<u8>,
) -> RequestView {
    match planned {
        PlannedView::CreateFolder(id) => RequestView::CreateFolder(id),
        PlannedView::RequestNewFile(index) => RequestView::RequestNewFile(index),
        PlannedView::RequestSignature(index) => RequestView::RequestSignature(index),
        PlannedView::RequestDiff(index, server) => RequestView::RequestDiff(
            index,
            rsync_signature(
                data,
                ideal_block_size(server_files[server].size),
                DEFAULT_CRYPTO_HASH_SIZE,
            ),
        ),
        PlannedView::Delete(index) => RequestView::Delete(index),
        PlannedView::CreateFile(server) => RequestView::CreateFile(
            data,
            server_files[server].relative_path,
            server_files[server].folder_id,
        ),
    }
}

/// The data for the planned request at `k`, where each request that needs a file takes the next
/// of `contents`.
pub open spec fn data_for(planned: Seq<PlannedView>, contents: Seq<Seq<u8>>, k: int) -> Seq<u8> {
    contents[files_needed(planned.take(k)).len() as int]
}

/// The requests that a plan becomes with the data of the files that it needs, in turn.
pub open spec fn completed_plan(
    planned: Seq<PlannedView>,
    server_files: Seq<FiledataView>,
    contents: Seq<Seq<u8>>,
) -> Seq<RequestView> {
    Seq::new(
        planned.len(),
        |k: int| completed(planned[k], server_files, data_for(planned, contents, k)),
    )
}

/// A signature can be made of the data of a server file: the file is listed with at least sixteen
/// bytes, and the signature fits in memory.
pub open spec fn signable(file: FiledataView, data: Seq<u8>) -> bool {
    &&& file.size >= 16
    &&& signature_length(
        data.len() as int,
        ideal_block_size(file.size) as int,
        DEFAULT_CRYPTO_HASH_SIZE as int,
    ) <= isize::MAX
}

/// A planned request can be completed with this data.
pub open spec fn completable(
    planned: PlannedView,
    server_files: Seq<FiledataView>,
    data: Seq<u8>,
) -> bool {
    planned matches PlannedView::RequestDiff(_, server) ==> signable(server_files[server], data)
}

/// There is data for each file that a plan needs, and signatures can be made where it needs them.
pub open spec fn plan_completable(
    planned: Seq<PlannedView>,
    server_files: Seq<FiledataView>,
    contents: Seq<Seq<u8>>,
) -> bool {
    &&& contents.len() == files_needed(planned).len()
    &&& forall|k: int|
        0 <= k < planned.len() ==> completable(
            #[trigger] planned[k],
            server_files,
            data_for(planned, contents, k),
        )
}

/// What the server does on its own disk about one client file: it makes room for a folder that it
/// has not, and deletes what is marked for deletion.
pub open spec fn actions_for_file(
    root_dir: Seq<char>,
    folder_ids: Seq<Seq<char>>,
    file: FiledataView,
) -> Seq<ActionView> {
    (if folder_ids.contains(file.folder_id) {
        Seq::empty()
    } else {
        seq![ActionView::CreateDirectory(joined(root_dir, file.folder_id))]
    }) + (if file.should_delete {
        seq![ActionView::DeleteFile(file_location(root_dir, file))]
    } else {
        Seq::empty()
    })
}

/// What the server does on its own disk about the client's files, in turn.
pub open spec fn actions_for_files(
    root_dir: Seq<char>,
    folder_ids: Seq<Seq<char>>,
    files: Seq<FiledataView>,
) -> Seq<ActionView>
    decreases files.len(),
{
    if files.len() == 0 {
        Seq::empty()
    } else {
        actions_for_files(root_dir, folder_ids, files.drop_last()) + actions_for_file(
            root_dir,
            folder_ids,
            files.last(),
        )
    }
}

/// The file whose data is needed to deal with a client's answer.
pub open spec fn file_for_response(state: SyncState, response: ResponseView) -> Option<Seq<char>> {
    let clients = state.client_file_list;
    match response {
        ResponseView::NewFile(_, _) => None,
        ResponseView::Signature(index, signature) => if index < clients.len() && signature_parses(
            signature,
        ) {
            Some(file_location(state.root_dir, clients[index]))
        } else {
            None
        },
        ResponseView::Diff(index, _) => if index < clients.len() {
            Some(file_location(state.root_dir, clients[index]))
        } else {
            None
        },
    }
}

/// What to do about a client's answer, given the data of the file that is needed for it: a new
/// file is written, a signature is answered with the way to the server's version, and a diff is
/// applied to the server's version.
pub open spec fn action_for_response(
    state: SyncState,
    response: ResponseView,
    data: Seq<u8>,
) -> ResponseActionView {
    let clients = state.client_file_list;
    match response {
        ResponseView::NewFile(index, bytes) => if index < clients.len() {
            ResponseActionView::WriteFile(file_location(state.root_dir, clients[index]), bytes)
        } else {
            ResponseActionView::Ignore
        },
        ResponseView::Signature(index, signature) => if index < clients.len() && signature_parses(
            signature,
        ) && signature_supported(signature) {
            ResponseActionView::Reply(RequestView::ApplyDiff(index, rsync_delta(signature, data)))
        } else {
            ResponseActionView::Ignore
        },
        ResponseView::Diff(index, diff) => if index < clients.len() {
            ResponseActionView::ReplaceFile(
                file_location(state.root_dir, clients[index]),
                rsync_patched(data, diff),
            )
        } else {
            ResponseActionView::Ignore
        },
    }
}

/// The answer can be dealt with: if it is a signature for one of the client's files, that can be
/// answered.
pub open spec fn response_manageable(state: SyncState, response: ResponseView) -> bool {
    response matches ResponseView::Signature(index, signature) ==> index
        < state.client_file_list.len() ==> signature_answerable(signature)
}

/// What comes of an answer: the action that it calls for. A diff that is sent leads to the server's
/// data, and a diff that is taken over leads to the client's, wherever the signature between them
/// is good enough for that.
pub open spec fn handles_response(
    state: SyncState,
    response: ResponseView,
    data: Seq<u8>,
    action: ResponseActionView,
) -> bool {
    &&& action == action_for_response(state, response, data)
    &&& match (response, action) {
        (
            ResponseView::Signature(_, signature),
            ResponseActionView::Reply(RequestView::ApplyDiff(_, diff)),
        ) => leads_to(signature, diff, data),
        (ResponseView::Diff(_, diff), ResponseActionView::ReplaceFile(_, written)) => restores(
            data,
            diff,
            written,
        ),
        _ => true,
    }
}

/// A request for a diff comes with the signature of the data, which the other side can read and work
/// with.
pub open spec fn properly_signed(request: RequestView, data: Seq<u8>) -> bool {
    request matches RequestView::RequestDiff(_, signature) ==> {
        &&& is_signature_of(signature, data)
        &&& signature_parses(signature)
        &&& signature_supported(signature)
        &&& signature_answerable(signature)
    }
}

/// What a plan becomes: the completed requests, properly signed.
pub open spec fn makes_requests(
    planned: Seq<PlannedView>,
    server_files: Seq<FiledataView>,
    contents: Seq<Seq<u8>>,
    requests: Seq<RequestView>,
) -> bool {
    &&& requests == completed_plan(planned, server_files, contents)
    &&& forall|k: int|
        0 <= k < planned.len() ==> properly_signed(
            #[trigger] requests[k],
            data_for(planned, contents, k),
        )
}

/// The client file that a planned request is about.
pub open spec fn client_file_of(planned: PlannedView) -> Option<int> {
    match planned {
        PlannedView::RequestNewFile(index) => Some(index),
        PlannedView::RequestSignature(index) => Some(index),
        PlannedView::RequestDiff(index, _) => Some(index),
        PlannedView::Delete(index) => Some(index),
        _ => None,
    }
}

proof fn lemma_client_plan(client_files: Seq<FiledataView>, server_files: Seq<FiledataView>)
    ensures
        forall|k: int|
            0 <= k < plan_client_files(client_files, server_files).len() ==> {
                let planned = #[trigger] plan_client_files(client_files, server_files)[k];
                &&& client_file_of(planned) is Some
                &&& 0 <= client_file_of(planned)->0 < client_files.len()
                &&& file_needed(planned) matches Some(server) ==> 0 <= server < server_files.len()
                &&& planned !is CreateFile
                &&& Some(planned) == plan_client_file(
                    client_file_of(planned)->0,
                    client_files[client_file_of(planned)->0],
                    server_files,
                )
            },
        forall|k: int, l: int|
            0 <= k < l < plan_client_files(client_files, server_files).len() ==> client_file_of(
                #[trigger] plan_client_files(client_files, server_files)[k],
            )->0 < client_file_of(#[trigger] plan_client_files(client_files, server_files)[l])->0,
    decreases client_files.len(),
{
    if client_files.len() > 0 {
        let rest = client_files.drop_last();
        lemma_client_plan(rest, server_files);
        law_find_file(server_files, client_files.last());
        let before = plan_client_files(rest, server_files);
        let after = plan_client_files(client_files, server_files);
        assert forall|k: int| 0 <= k < after.len() implies {
            let planned = #[trigger] after[k];
            &&& client_file_of(planned) is Some
            &&& 0 <= client_file_of(planned)->0 < client_files.len()
            &&& file_needed(planned) matches Some(server) ==> 0 <= server < server_files.len()
            &&& planned !is CreateFile
            &&& Some(planned) == plan_client_file(
                client_file_of(planned)->0,
                client_files[client_file_of(planned)->0],
                server_files,
            )
        } by {
            if k < before.len() {
                assert(after[k] == before[k]);
                assert(rest[client_file_of(before[k])->0] == client_files[client_file_of(
                    before[k],
                )->0]);
            }
        }
        assert forall|k: int, l: int| 0 <= k < l < after.len() implies client_file_of(
            #[trigger] after[k],
        )->0 < client_file_of(#[trigger] after[l])->0 by {
            assert(after[k] == before[k]);
            if l < before.len() {
                assert(after[l] == before[l]);
            }
        }
    }
}

proof fn lemma_unknown_files(server_files: Seq<FiledataView>, known: Seq<FiledataView>)
    ensures
        forall|k: int|
            0 <= k < plan_unknown_files(server_files, known).len() ==> {
                let planned = #[trigger] plan_unknown_files(server_files, known)[k];
                &&& planned is CreateFile
                &&& 0 <= planned->CreateFile_0 < server_files.len()
                &&& !has_file(known, server_files[planned->CreateFile_0])
            },
        forall|k: int, l: int|
            0 <= k < l < plan_unknown_files(server_files, known).len() ==> (
            #[trigger] plan_unknown_files(server_files, known)[k])->CreateFile_0 < (
            #[trigger] plan_unknown_files(server_files, known)[l])->CreateFile_0,
    decreases server_files.len(),
{
    if server_files.len() > 0 {
        let rest = server_files.drop_last();
        lemma_unknown_files(rest, known);
        let before = plan_unknown_files(rest, known);
        let after = plan_unknown_files(server_files, known);
        assert forall|k: int| 0 <= k < after.len() implies {
            let planned = #[trigger] after[k];
            &&& planned is CreateFile
            &&& 0 <= planned->CreateFile_0 < server_files.len()
            &&& !has_file(known, server_files[planned->CreateFile_0])
        } by {
            if k < before.len() {
                assert(after[k] == before[k]);
                assert(rest[before[k]->CreateFile_0] == server_files[before[k]->CreateFile_0]);
            }
        }
        assert forall|k: int, l: int| 0 <= k < l < after.len() implies (
        #[trigger] after[k])->CreateFile_0 < (#[trigger] after[l])->CreateFile_0 by {
            assert(after[k] == before[k]);
            if l < before.len() {
                assert(after[l] == before[l]);
            }
        }
    }
}

proof fn lemma_unknown_file_is_planned(
    server_files: Seq<FiledataView>,
    known: Seq<FiledataView>,
    server: int,
)
    requires
        0 <= server < server_files.len(),
        !has_file(known, server_files[server]),
    ensures
        plan_unknown_files(server_files, known).contains(PlannedView::CreateFile(server)),
    decreases server_files.len(),
{
    let rest = server_files.drop_last();
    let before = plan_unknown_files(rest, known);
    let after = plan_unknown_files(server_files, known);
    if server == rest.len() {
        assert(after.last() == PlannedView::CreateFile(server));
    } else {
        assert(rest[server] == server_files[server]);
        lemma_unknown_file_is_planned(rest, known, server);
        let k = choose|k: int|
            0 <= k < before.len() && before[k] == PlannedView::CreateFile(server);
        assert(after[k] == before[k]);
    }
}

/// The new folders of a plan.
spec fn folders_of(state: SyncState) -> Seq<PlannedView> {
    plan_folders(state.list_of_folder_ids, state.previously_synced_list_of_folder_ids)
}

/// A plan is the new folders, then what the client's own files call for, then the server's files
/// that the client's list does not have.
pub proof fn law_plan_is_folders_then_client_files_then_unknown_files(state: SyncState, k: int)
    requires
        0 <= k < plan(state).len(),
    ensures
        ({
            let folders = plan_folders(
                state.list_of_folder_ids,
                state.previously_synced_list_of_folder_ids,
            ).len();
            let asked = plan_client_files(state.client_file_list, state.server_file_list).len();
            &&& plan(state)[k] is CreateFolder <==> k < folders
            &&& client_file_of(plan(state)[k]) is Some <==> folders <= k < folders + asked
            &&& plan(state)[k] is CreateFile <==> folders + asked <= k
        }),
{
    let folders = folders_of(state);
    let asked = plan_client_files(state.client_file_list, state.server_file_list);
    let unknown = plan_unknown_files(state.server_file_list, state.client_file_list);
    lemma_client_plan(state.client_file_list, state.server_file_list);
    lemma_unknown_files(state.server_file_list, state.client_file_list);
    if k < folders.len() {
        assert(plan(state)[k] == folders[k]);
        lemma_planned_folder(state, k);
    } else if k < folders.len() + asked.len() {
        assert(plan(state)[k] == asked[k - folders.len()]);
    } else {
        assert(plan(state)[k] == unknown[k - folders.len() - asked.len()]);
    }
}

proof fn lemma_planned_folder(state: SyncState, k: int)
    requires
        0 <= k < folders_of(state).len(),
    ensures
        folders_of(state)[k] is CreateFolder,
        state.list_of_folder_ids.contains(folders_of(state)[k]->CreateFolder_0),
        !state.previously_synced_list_of_folder_ids.contains(folders_of(state)[k]->CreateFolder_0),
{
    let ids = state.list_of_folder_ids;
    let previous = state.previously_synced_list_of_folder_ids;
    let folders = folders_of(state);
    let keep = |id: Seq<char>| !previous.contains(id);
    let create = |id: Seq<char>| PlannedView::CreateFolder(id);
    lemma_select_members(ids, keep, create, folders[k]);
    assert(folders.contains(folders[k]));
    let i = choose|i: int|
        0 <= i < ids.len() && keep(#[trigger] ids[i]) && create(ids[i]) == folders[k];
    assert(ids.contains(ids[i]));
}

/// Every planned request is for a folder that the client does not have yet, or is what the
/// comparison of one of the client's files with the server's calls for, or sends a file of the
/// server that the client's list does not have.
pub proof fn law_planned_requests_are_justified(state: SyncState, k: int)
    requires
        0 <= k < plan(state).len(),
    ensures
        match plan(state)[k] {
            PlannedView::CreateFolder(id) => state.list_of_folder_ids.contains(id)
                && !state.previously_synced_list_of_folder_ids.contains(id),
            PlannedView::CreateFile(server) => 0 <= server < state.server_file_list.len()
                && !has_file(state.client_file_list, state.server_file_list[server]),
            planned => {
                let index = client_file_of(planned)->0;
                &&& 0 <= index < state.client_file_list.len()
                &&& Some(planned) == plan_client_file(
                    index,
                    state.client_file_list[index],
                    state.server_file_list,
                )
            },
        },
        file_needed(plan(state)[k]) matches Some(server) ==> 0 <= server
            < state.server_file_list.len(),
{
    let folders = folders_of(state);
    let asked = plan_client_files(state.client_file_list, state.server_file_list);
    let unknown = plan_unknown_files(state.server_file_list, state.client_file_list);
    lemma_client_plan(state.client_file_list, state.server_file_list);
    lemma_unknown_files(state.server_file_list, state.client_file_list);
    if k < folders.len() {
        assert(plan(state)[k] == folders[k]);
        lemma_planned_folder(state, k);
    } else if k < folders.len() + asked.len() {
        assert(plan(state)[k] == asked[k - folders.len()]);
    } else {
        assert(plan(state)[k] == unknown[k - folders.len() - asked.len()]);
    }
}

/// The server's files that the client's list does not have are sent to the client, and no others.
pub proof fn law_missing_files_are_sent(state: SyncState, server: int)
    requires
        0 <= server < state.server_file_list.len(),
    ensures
        plan(state).contains(PlannedView::CreateFile(server)) <==> !has_file(
            state.client_file_list,
            state.server_file_list[server],
        ),
{
    let sent = PlannedView::CreateFile(server);
    if plan(state).contains(sent) {
        let k = choose|k: int| 0 <= k < plan(state).len() && plan(state)[k] == sent;
        law_planned_requests_are_justified(state, k);
    }
    if !has_file(state.client_file_list, state.server_file_list[server]) {
        let unknown = plan_unknown_files(state.server_file_list, state.client_file_list);
        lemma_unknown_file_is_planned(state.server_file_list, state.client_file_list, server);
        let k = choose|k: int| 0 <= k < unknown.len() && unknown[k] == sent;
        let start = plan(state).len() - unknown.len();
        assert(plan(state)[start + k] == sent);
    }
}

/// The data for a planned request is that of the file it needs.
proof fn lemma_data_in_turn(planned: Seq<PlannedView>, k: int)
    requires
        0 <= k < planned.len(),
        file_needed(planned[k]) is Some,
    ensures
        files_needed(planned.take(k)).len() < files_needed(planned).len(),
        files_needed(planned)[files_needed(planned.take(k)).len() as int] == file_needed(
            planned[k],
        )->0,
{
    let keep = |p: PlannedView| file_needed(p) is Some;
    let index = |p: PlannedView| file_needed(p)->0;
    lemma_select_step(planned, keep, index, k);
    lemma_select_prefix(planned, keep, index, k + 1);
    let low = files_needed(planned.take(k + 1));
    assert(low[low.len() - 1] == files_needed(planned).subrange(0, low.len() as int)[low.len() - 1]);
}

/// Where the data handed over is what the files hold that were asked for, in turn, every request
/// goes out with the data of its own file.
pub proof fn law_requests_carry_their_own_data(
    planned: Seq<PlannedView>,
    server_files: Seq<FiledataView>,
    held: spec_fn(int) -> Seq<u8>,
    k: int,
)
    requires
        0 <= k < planned.len(),
    ensures
        file_needed(planned[k]) matches Some(server) ==> completed_plan(
            planned,
            server_files,
            files_needed(planned).map_values(held),
        )[k] == completed(planned[k], server_files, held(server)),
{
    if file_needed(planned[k]) is Some {
        lemma_data_in_turn(planned, k);
    }
}

/// A file of the server that the client's list does not have is sent with its data, its path and
/// its folder.
pub proof fn law_missing_files_are_sent_whole(
    state: SyncState,
    held: spec_fn(int) -> Seq<u8>,
    server: int,
)
    requires
        0 <= server < state.server_file_list.len(),
        !has_file(state.client_file_list, state.server_file_list[server]),
    ensures
        completed_plan(
            plan(state),
            state.server_file_list,
            files_needed(plan(state)).map_values(held),
        ).contains(
            RequestView::CreateFile(
                held(server),
                state.server_file_list[server].relative_path,
                state.server_file_list[server].folder_id,
            ),
        ),
{
    law_missing_files_are_sent(state, server);
    let k = choose|k: int|
        0 <= k < plan(state).len() && plan(state)[k] == PlannedView::CreateFile(server);
    law_requests_carry_their_own_data(plan(state), state.server_file_list, held, k);
    let requests = completed_plan(
        plan(state),
        state.server_file_list,
        files_needed(plan(state)).map_values(held),
    );
    assert(requests.contains(requests[k]));
}

/// A client is told of every folder that it does not have yet.
pub proof fn law_new_folders_are_announced(state: SyncState, id: Seq<char>)
    requires
        state.list_of_folder_ids.contains(id),
        !state.previously_synced_list_of_folder_ids.contains(id),
    ensures
        plan(state).contains(PlannedView::CreateFolder(id)),
{
    let ids = state.list_of_folder_ids;
    let previous = state.previously_synced_list_of_folder_ids;
    let keep = |id: Seq<char>| !previous.contains(id);
    let create = |id: Seq<char>| PlannedView::CreateFolder(id);
    let folders = plan_folders(ids, previous);
    let i = choose|i: int| 0 <= i < ids.len() && ids[i] == id;
    assert(keep(ids[i]) && create(ids[i]) == PlannedView::CreateFolder(id));
    lemma_select_members(ids, keep, create, PlannedView::CreateFolder(id));
    let k = choose|k: int| 0 <= k < folders.len() && folders[k] == PlannedView::CreateFolder(id);
    assert(plan(state)[k] == folders[k]);
}

proof fn lemma_client_files_are_considered(
    client_files: Seq<FiledataView>,
    server_files: Seq<FiledataView>,
    index: int,
)
    requires
        0 <= index < client_files.len(),
        plan_client_file(index, client_files[index], server_files) is Some,
    ensures
        plan_client_files(client_files, server_files).contains(
            plan_client_file(index, client_files[index], server_files)->0,
        ),
    decreases client_files.len(),
{
    let wanted = plan_client_file(index, client_files[index], server_files)->0;
    let rest = client_files.drop_last();
    let before = plan_client_files(rest, server_files);
    let after = plan_client_files(client_files, server_files);
    if index == rest.len() {
        assert(after.last() == wanted);
    } else {
        lemma_client_files_are_considered(rest, server_files, index);
        let k = choose|k: int| 0 <= k < before.len() && before[k] == wanted;
        assert(after[k] == wanted);
    }
}

/// Whatever the comparison of a client file with the server's calls for is planned.
pub proof fn law_every_client_file_is_considered(state: SyncState, index: int)
    requires
        0 <= index < state.client_file_list.len(),
    ensures
        plan_client_file(index, state.client_file_list[index], state.server_file_list) matches Some(
            planned,
        ) ==> plan(state).contains(planned),
{
    let clients = state.client_file_list;
    let servers = state.server_file_list;
    if plan_client_file(index, clients[index], servers) is Some {
        let planned = plan_client_file(index, clients[index], servers)->0;
        lemma_client_files_are_considered(clients, servers, index);
        let folders = folders_of(state);
        let asked = plan_client_files(clients, servers);
        let k = choose|k: int| 0 <= k < asked.len() && asked[k] == planned;
        assert(plan(state)[folders.len() + k] == planned);
    }
}

/// At most one request is planned about each client file, and they come in the order of the
/// client's list. Behind them come no others than those that send a file.
pub proof fn law_one_request_per_client_file(state: SyncState, k: int, l: int)
    requires
        0 <= k < l < plan(state).len(),
        client_file_of(plan(state)[k]) is Some,
    ensures
        match client_file_of(plan(state)[l]) {
            Some(later) => client_file_of(plan(state)[k])->0 < later,
            None => plan(state)[l] is CreateFile,
        },
{
    let folders = folders_of(state);
    let asked = plan_client_files(state.client_file_list, state.server_file_list);
    law_plan_is_folders_then_client_files_then_unknown_files(state, k);
    law_plan_is_folders_then_client_files_then_unknown_files(state, l);
    lemma_client_plan(state.client_file_list, state.server_file_list);
    assert(plan(state)[k] == asked[k - folders.len()]);
    if l < folders.len() + asked.len() {
        assert(plan(state)[l] == asked[l - folders.len()]);
    }
}

/// Each file is sent at most once, in the order of the server's list.
pub proof fn law_files_are_sent_once(state: SyncState, k: int, l: int)
    requires
        0 <= k < l < plan(state).len(),
        plan(state)[k] is CreateFile,
    ensures
        plan(state)[l] is CreateFile,
        plan(state)[k]->CreateFile_0 < plan(state)[l]->CreateFile_0,
{
    let unknown = plan_unknown_files(state.server_file_list, state.client_file_list);
    let start = plan(state).len() - unknown.len();
    law_plan_is_folders_then_client_files_then_unknown_files(state, k);
    law_plan_is_folders_then_client_files_then_unknown_files(state, l);
    lemma_unknown_files(state.server_file_list, state.client_file_list);
    assert(plan(state)[k] == unknown[k - start]);
    assert(plan(state)[l] == unknown[l - start]);
}

/// Two sides in step need nothing from each other: where the client knows all the folders and has
/// all the server's files, and the server has each of the client's in the same size and not
/// deleted, nothing is planned.
pub proof fn law_nothing_is_planned_in_step(state: SyncState)
    requires
        forall|i: int|
            0 <= i < state.list_of_folder_ids.len()
                ==> state.previously_synced_list_of_folder_ids.contains(
                #[trigger] state.list_of_folder_ids[i],
            ),
        forall|i: int|
            0 <= i < state.client_file_list.len() ==> {
                let found = find_file(state.server_file_list, #[trigger] state.client_file_list[i]);
                &&& found is Some
                &&& !state.server_file_list[found->0].should_delete
                &&& state.server_file_list[found->0].size == state.client_file_list[i].size
            },
        forall|j: int|
            0 <= j < state.server_file_list.len() ==> has_file(
                state.client_file_list,
                #[trigger] state.server_file_list[j],
            ),
    ensures
        plan(state) == Seq::<PlannedView>::empty(),
{
    if plan(state).len() > 0 {
        law_planned_requests_are_justified(state, 0);
        match plan(state)[0] {
            PlannedView::CreateFolder(id) => {
                let ids = state.list_of_folder_ids;
                let i = choose|i: int| 0 <= i < ids.len() && ids[i] == id;
                assert(state.previously_synced_list_of_folder_ids.contains(ids[i]));
            },
            PlannedView::CreateFile(server) => {
                assert(has_file(state.client_file_list, state.server_file_list[server]));
            },
            planned => {
                assert(plan_client_file(
                    client_file_of(planned)->0,
                    state.client_file_list[client_file_of(planned)->0],
                    state.server_file_list,
                ) is None);
            },
        }
    }
    assert(plan(state) =~= Seq::<PlannedView>::empty());
}

/// What gets marked for deletion is exactly what was synchronised before and is gone now.
pub proof fn law_deletions(
    previous: Seq<FiledataView>,
    current: Seq<FiledataView>,
    file: FiledataView,
)
    ensures
        deletions(previous, current).contains(file) <==> {
            &&& file.should_delete
            &&& !has_file(current, file)
            &&& exists|i: int|
                0 <= i < previous.len() && file == (FiledataView {
                    should_delete: true,
                    ..#[trigger] previous[i]
                })
        },
{
    let keep = |file: FiledataView| !has_file(current, file);
    let mark = |file: FiledataView| FiledataView { should_delete: true, ..file };
    lemma_select_members(previous, keep, mark, file);
    assert forall|i: int| 0 <= i < previous.len() implies (has_file(
        current,
        #[trigger] previous[i],
    ) <==> has_file(current, mark(previous[i]))) by {
        lemma_has_file_ignores_mark(current, previous[i]);
    }
    if deletions(previous, current).contains(file) {
        let i = choose|i: int|
            0 <= i < previous.len() && keep(#[trigger] previous[i]) && mark(previous[i]) == file;
        assert(file == mark(previous[i]));
    }
    if file.should_delete && !has_file(current, file) && (exists|i: int|
        0 <= i < previous.len() && file == (FiledataView {
            should_delete: true,
            ..#[trigger] previous[i]
        })) {
        let i = choose|i: int|
            0 <= i < previous.len() && file == (FiledataView {
                should_delete: true,
                ..#[trigger] previous[i]
            });
        assert(keep(previous[i]) && mark(previous[i]) == file);
    }
}

proof fn lemma_has_file_ignores_mark(list: Seq<FiledataView>, file: FiledataView)
    ensures
        has_file(list, file) <==> has_file(list, FiledataView { should_delete: true, ..file }),
{
    let marked = FiledataView { should_delete: true, ..file };
    if has_file(list, file) {
        let i = choose|i: int| 0 <= i < list.len() && same_file(#[trigger] list[i], file);
        assert(same_file(list[i], marked));
    }
    if has_file(list, marked) {
        let i = choose|i: int| 0 <= i < list.len() && same_file(#[trigger] list[i], marked);
        assert(same_file(list[i], file));
    }
}

/// A file that is on the client's list because it is gone from the server is asked for anew.
pub proof fn law_deleted_files_are_asked_for(
    previous: Seq<FiledataView>,
    current: Seq<FiledataView>,
    file: FiledataView,
    index: int,
)
    requires
        deletions(previous, current).contains(file),
    ensures
        plan_client_file(index, file, current) == Some(PlannedView::RequestNewFile(index)),
{
    law_deletions(previous, current, file);
    law_find_file(current, file);
}

/// The server deletes the files on the client's list that are marked for deletion, and no others.
pub proof fn law_only_marked_files_are_deleted(
    root_dir: Seq<char>,
    folder_ids: Seq<Seq<char>>,
    files: Seq<FiledataView>,
    path: Seq<char>,
)
    ensures
        actions_for_files(root_dir, folder_ids, files).contains(ActionView::DeleteFile(path))
            <==> exists|i: int|
            0 <= i < files.len() && (#[trigger] files[i]).should_delete && file_location(
                root_dir,
                files[i],
            ) == path,
    decreases files.len(),
{
    let action = ActionView::DeleteFile(path);
    if files.len() > 0 {
        let rest = files.drop_last();
        let last = files.last();
        law_only_marked_files_are_deleted(root_dir, folder_ids, rest, path);
        let before = actions_for_files(root_dir, folder_ids, rest);
        let added = actions_for_file(root_dir, folder_ids, last);
        let after = actions_for_files(root_dir, folder_ids, files);
        if after.contains(action) {
            let k = choose|k: int| 0 <= k < after.len() && after[k] == action;
            if k < before.len() {
                assert(before[k] == action);
                let i = choose|i: int|
                    0 <= i < rest.len() && (#[trigger] rest[i]).should_delete && file_location(
                        root_dir,
                        rest[i],
                    ) == path;
                assert(files[i] == rest[i]);
            } else {
                assert(added[k - before.len()] == action);
                assert(files[files.len() - 1] == last);
            }
        }
        if exists|i: int|
            0 <= i < files.len() && (#[trigger] files[i]).should_delete && file_location(
                root_dir,
                files[i],
            ) == path {
            let i = choose|i: int|
                0 <= i < files.len() && (#[trigger] files[i]).should_delete && file_location(
                    root_dir,
                    files[i],
                ) == path;
            if i < rest.len() {
                assert(rest[i] == files[i]);
                let k = choose|k: int| 0 <= k < before.len() && before[k] == action;
                assert(after[k] == action);
            } else {
                assert(added.last() == action);
                assert(after[after.len() - 1] == action);
            }
        }
    }
}

/// A file stands below the root directory of the synchronisation, if neither its folder nor its
/// path starts at the root of the file system or steps up to a parent directory.
pub proof fn law_file_location_lies_below_root(root_dir: Seq<char>, file: FiledataView)
    requires
        !is_absolute(file.folder_id),
        !is_absolute(file.relative_path),
        !steps_up(file.folder_id),
        !steps_up(file.relative_path),
    ensures
        lies_below(file_location(root_dir, file), root_dir),
{
    let folder = joined(root_dir, file.folder_id);
    law_joined_path_lies_below_base(root_dir, file.folder_id);
    law_joined_path_lies_below_base(folder, file.relative_path);
    let (low, middle, high) = (
        components(root_dir),
        components(folder),
        components(file_location(root_dir, file)),
    );
    assert(low =~= middle.subrange(0, low.len() as int));
    assert(middle =~= high.subrange(0, middle.len() as int));
    assert(low =~= high.subrange(0, low.len() as int));
    assert forall|i: int| low.len() <= i < high.len() implies #[trigger] high[i] !is ParentDir by {
        if i < middle.len() {
            assert(high[i] == middle[i]);
        }
    }
}

/// An answer about a file that is not on the client's list changes nothing and needs nothing.
pub proof fn law_unknown_file_is_ignored(state: SyncState, response: ResponseView, data: Seq<u8>)
    requires
        ({
            let index = match response {
                ResponseView::NewFile(index, _) => index,
                ResponseView::Signature(index, _) => index,
                ResponseView::Diff(index, _) => index,
            };
            index >= state.client_file_list.len()
        }),
    ensures
        action_for_response(state, response, data) == ResponseActionView::Ignore,
        file_for_response(state, response) is None,
{
}

/// The data of a file on the server only matters where it is asked for.
pub proof fn law_data_matters_only_where_needed(
    state: SyncState,
    response: ResponseView,
    data: Seq<u8>,
    other: Seq<u8>,
)
    requires
        file_for_response(state, response) is None,
    ensures
        action_for_response(state, response, data) == action_for_response(state, response, other),
{
}

/// Two records of the same file lead to the same place on the server's disk.
pub proof fn law_same_file_has_one_location(
    root_dir: Seq<char>,
    a: FiledataView,
    b: FiledataView,
)
    requires
        same_file(a, b),
    ensures
        same_path(file_location(root_dir, a), file_location(root_dir, b)),
{
    law_joining_keeps_paths_same(
        joined(root_dir, a.folder_id),
        a.relative_path,
        b.relative_path,
    );
}

/// The answer to a client's signature leads to the server's data: where the signature is that of the
/// client's data and good enough to get from there to the server's, the client is told to apply a
/// diff to the same file that makes the server's data of its own.
pub proof fn law_answered_signature_leads_to_server_data(
    state: SyncState,
    index: int,
    signature: Seq<u8>,
    client_data: Seq<u8>,
    server_data: Seq<u8>,
    action: ResponseActionView,
)
    requires
        0 <= index < state.client_file_list.len(),
        identifies(signature, client_data, server_data),
        handles_response(
            state,
            ResponseView::Signature(index, signature),
            server_data,
            action,
        ),
    ensures
        action == ResponseActionView::Reply(
            RequestView::ApplyDiff(index, rsync_delta(signature, server_data)),
        ),
        rsync_patched(client_data, rsync_delta(signature, server_data)) == server_data,
{
    law_signature_is_supported(signature, client_data);
}

/// A requested diff brings the server's file up to date: where the client answers with the delta from
/// the signature in the request to its own data, and signatures of that kind are good enough to get
/// from the server's data to the client's, the file that was signed takes on the client's data.
pub proof fn law_requested_diff_leads_to_client_data(
    state: SyncState,
    held: spec_fn(int) -> Seq<u8>,
    requests: Seq<RequestView>,
    k: int,
    client_data: Seq<u8>,
    action: ResponseActionView,
)
    requires
        0 <= k < plan(state).len(),
        plan(state)[k] is RequestDiff,
        makes_requests(
            plan(state),
            state.server_file_list,
            files_needed(plan(state)).map_values(held),
            requests,
        ),
        ({
            let index = plan(state)[k]->RequestDiff_0;
            let server_data = held(plan(state)[k]->RequestDiff_1);
            let signature = requests[k]->RequestDiff_1;
            &&& distinguishes(signature, server_data, client_data)
            &&& handles_response(
                state,
                ResponseView::Diff(index, rsync_delta(signature, client_data)),
                server_data,
                action,
            )
        }),
    ensures
        ({
            let index = plan(state)[k]->RequestDiff_0;
            let server = plan(state)[k]->RequestDiff_1;
            let location = file_location(state.root_dir, state.client_file_list[index]);
            &&& requests[k] is RequestDiff
            &&& requests[k]->RequestDiff_0 == index
            &&& action == ResponseActionView::ReplaceFile(location, client_data)
            &&& same_path(location, file_location(state.root_dir, state.server_file_list[server]))
        }),
{
    let planned = plan(state);
    let index = planned[k]->RequestDiff_0;
    let server = planned[k]->RequestDiff_1;
    let contents = files_needed(planned).map_values(held);
    law_planned_requests_are_justified(state, k);
    lemma_data_in_turn(planned, k);
    assert(data_for(planned, contents, k) == held(server));
    assert(properly_signed(requests[k], held(server)));
    assert(identifies(requests[k]->RequestDiff_1, held(server), client_data));
    law_find_file(state.server_file_list, state.client_file_list[index]);
    law_same_file_has_one_location(
        state.root_dir,
        state.server_file_list[server],
        state.client_file_list[index],
    );
}

/// `server` is the first record of the server's that has the folder and the path of a client's.
pub open spec fn is_first_match(state: SyncState, index: int, server: int) -> bool {
    let file = state.client_file_list[index];
    let servers = state.server_file_list;
    &&& 0 <= server < servers.len()
    &&& servers[server].folder_id == file.folder_id
    &&& components(servers[server].relative_path) == components(file.relative_path)
    &&& forall|i: int|
        0 <= i < server ==> (#[trigger] servers[i]).folder_id != file.folder_id || components(
            servers[i].relative_path,
        ) != components(file.relative_path)
}

proof fn lemma_first_match(state: SyncState, index: int, server: int)
    requires
        is_first_match(state, index, server),
    ensures
        find_file(state.server_file_list, state.client_file_list[index]) == Some(server),
{
    let servers = state.server_file_list;
    let file = state.client_file_list[index];
    law_find_file(servers, file);
    assert(same_file(servers[server], file));
    let found = find_file(servers, file)->0;
    if found < server {
        assert(servers[found].folder_id == file.folder_id);
    }
}

/// What is planned about a client file is the one thing that the comparison calls for.
proof fn lemma_planned_about(state: SyncState, index: int, planned: PlannedView)
    requires
        0 <= index < state.client_file_list.len(),
        client_file_of(planned) == Some(index),
    ensures
        plan(state).contains(planned) <==> plan_client_file(
            index,
            state.client_file_list[index],
            state.server_file_list,
        ) == Some(planned),
{
    law_every_client_file_is_considered(state, index);
    if plan(state).contains(planned) {
        let k = choose|k: int| 0 <= k < plan(state).len() && plan(state)[k] == planned;
        law_planned_requests_are_justified(state, k);
    }
}

/// Where the sizes of a file differ, the newer side wins: the signature of the client's file is asked
/// for exactly if the server's is newer, and a diff from the server's version exactly if it is not.
/// Neither the whole file is asked for nor is it deleted.
pub proof fn law_newer_side_wins(state: SyncState, index: int, server: int, other: int)
    requires
        0 <= index < state.client_file_list.len(),
        is_first_match(state, index, server),
        !state.server_file_list[server].should_delete,
        state.server_file_list[server].size != state.client_file_list[index].size,
    ensures
        plan(state).contains(PlannedView::RequestSignature(index))
            <==> state.client_file_list[index].modification_time
            < state.server_file_list[server].modification_time,
        plan(state).contains(PlannedView::RequestDiff(index, server))
            <==> state.client_file_list[index].modification_time
            >= state.server_file_list[server].modification_time,
        other != server ==> !plan(state).contains(PlannedView::RequestDiff(index, other)),
        !plan(state).contains(PlannedView::RequestNewFile(index)),
        !plan(state).contains(PlannedView::Delete(index)),
{
    lemma_first_match(state, index, server);
    lemma_planned_about(state, index, PlannedView::RequestSignature(index));
    lemma_planned_about(state, index, PlannedView::RequestDiff(index, server));
    lemma_planned_about(state, index, PlannedView::RequestDiff(index, other));
    lemma_planned_about(state, index, PlannedView::RequestNewFile(index));
    lemma_planned_about(state, index, PlannedView::Delete(index));
}

/// Where the sizes of a file are the same, nothing is asked about it, whichever side is newer.
pub proof fn law_same_sizes_ask_nothing(state: SyncState, index: int, server: int, other: int)
    requires
        0 <= index < state.client_file_list.len(),
        is_first_match(state, index, server),
        !state.server_file_list[server].should_delete,
        state.server_file_list[server].size == state.client_file_list[index].size,
    ensures
        !plan(state).contains(PlannedView::RequestSignature(index)),
        !plan(state).contains(PlannedView::RequestDiff(index, other)),
        !plan(state).contains(PlannedView::RequestNewFile(index)),
        !plan(state).contains(PlannedView::Delete(index)),
{
    lemma_first_match(state, index, server);
    lemma_planned_about(state, index, PlannedView::RequestSignature(index));
    lemma_planned_about(state, index, PlannedView::RequestDiff(index, other));
    lemma_planned_about(state, index, PlannedView::RequestNewFile(index));
    lemma_planned_about(state, index, PlannedView::Delete(index));
}

/// A file that the server has deleted is deleted on the client, whatever sizes and times say.
pub proof fn law_deleted_on_server_is_deleted_on_client(
    state: SyncState,
    index: int,
    server: int,
    other: int,
)
    requires
        0 <= index < state.client_file_list.len(),
        is_first_match(state, index, server),
        state.server_file_list[server].should_delete,
    ensures
        plan(state).contains(PlannedView::Delete(index)),
        !plan(state).contains(PlannedView::RequestSignature(index)),
        !plan(state).contains(PlannedView::RequestDiff(index, other)),
        !plan(state).contains(PlannedView::RequestNewFile(index)),
{
    lemma_first_match(state, index, server);
    lemma_planned_about(state, index, PlannedView::RequestSignature(index));
    lemma_planned_about(state, index, PlannedView::RequestDiff(index, other));
    lemma_planned_about(state, index, PlannedView::RequestNewFile(index));
    lemma_planned_about(state, index, PlannedView::Delete(index));
}

/// A client file is asked for as a whole exactly if no record of the server's has its folder and its
/// path, and then nothing else is asked about it.
pub proof fn law_unmatched_files_are_asked_for(state: SyncState, index: int, other: int)
    requires
        0 <= index < state.client_file_list.len(),
    ensures
        plan(state).contains(PlannedView::RequestNewFile(index)) <==> forall|i: int|
            0 <= i < state.server_file_list.len() ==> (
            #[trigger] state.server_file_list[i]).folder_id
                != state.client_file_list[index].folder_id || components(
                state.server_file_list[i].relative_path,
            ) != components(state.client_file_list[index].relative_path),
        plan(state).contains(PlannedView::RequestNewFile(index)) ==> {
            &&& !plan(state).contains(PlannedView::RequestSignature(index))
            &&& !plan(state).contains(PlannedView::RequestDiff(index, other))
            &&& !plan(state).contains(PlannedView::Delete(index))
        },
{
    let servers = state.server_file_list;
    let file = state.client_file_list[index];
    law_find_file(servers, file);
    lemma_planned_about(state, index, PlannedView::RequestSignature(index));
    lemma_planned_about(state, index, PlannedView::RequestDiff(index, other));
    lemma_planned_about(state, index, PlannedView::RequestNewFile(index));
    lemma_planned_about(state, index, PlannedView::Delete(index));
    if has_file(servers, file) {
        let i = choose|i: int| 0 <= i < servers.len() && same_file(#[trigger] servers[i], file);
        assert(servers[i].folder_id == file.folder_id);
    }
    assert forall|i: int|
        0 <= i < servers.len() && !has_file(servers, file) implies (
    #[trigger] servers[i]).folder_id != file.folder_id || components(servers[i].relative_path)
        != components(file.relative_path) by {
        assert(!same_file(servers[i], file));
    }
}

/// A server's file is sent exactly if no record of the client's has its folder and its path.
pub proof fn law_unmatched_server_files_are_sent(state: SyncState, server: int)
    requires
        0 <= server < state.server_file_list.len(),
    ensures
        plan(state).contains(PlannedView::CreateFile(server)) <==> forall|i: int|
            0 <= i < state.client_file_list.len() ==> (
            #[trigger] state.client_file_list[i]).folder_id
                != state.server_file_list[server].folder_id || components(
                state.client_file_list[i].relative_path,
            ) != components(state.server_file_list[server].relative_path),
{
    let clients = state.client_file_list;
    let file = state.server_file_list[server];
    law_missing_files_are_sent(state, server);
    if has_file(clients, file) {
        let i = choose|i: int| 0 <= i < clients.len() && same_file(#[trigger] clients[i], file);
        assert(clients[i].folder_id == file.folder_id);
    }
    assert forall|i: int|
        0 <= i < clients.len() && !has_file(clients, file) implies (
    #[trigger] clients[i]).folder_id != file.folder_id || components(clients[i].relative_path)
        != components(file.relative_path) by {
        assert(!same_file(clients[i], file));
    }
}

/// A folder is announced exactly if the server has it and the last synchronisation had not. One more
/// folder on the server adds at most its own announcement, behind those of the others.
pub proof fn law_folders_are_announced_in_turn(
    folder_ids: Seq<Seq<char>>,
    previous: Seq<Seq<char>>,
    id: Seq<char>,
)
    ensures
        plan_folders(Seq::empty(), previous) == Seq::<PlannedView>::empty(),
        plan_folders(folder_ids.push(id), previous) == plan_folders(folder_ids, previous) + if (
        exists|i: int| 0 <= i < previous.len() && #[trigger] previous[i] == id) {
            Seq::empty()
        } else {
            seq![PlannedView::CreateFolder(id)]
        },
{
    let keep = |id: Seq<char>| !previous.contains(id);
    let create = |id: Seq<char>| PlannedView::CreateFolder(id);
    let more = folder_ids.push(id);
    let count = folder_ids.len() as int;
    let none = Seq::<Seq<char>>::empty();
    lemma_select_nothing(none, keep, create);
    assert(none.take(0) =~= none);
    lemma_select_step(more, keep, create, count);
    lemma_select_all(more, keep, create);
    assert(more.take(count) =~= folder_ids);
    assert(more[count] == id);
    assert(plan_folders(more, previous) =~= plan_folders(folder_ids, previous) + if (exists|i: int|
        0 <= i < previous.len() && #[trigger] previous[i] == id) {
        Seq::empty()
    } else {
        seq![PlannedView::CreateFolder(id)]
    });
}

/// The last record of the last synchronisation adds itself, marked and otherwise as it is, behind
/// the deletions of the others, if no current record has its folder and its path.
pub proof fn law_deletions_in_turn(
    previous: Seq<FiledataView>,
    current: Seq<FiledataView>,
    file: FiledataView,
)
    ensures
        deletions(Seq::empty(), current) == Seq::<FiledataView>::empty(),
        deletions(previous.push(file), current) == deletions(previous, current) + if (exists|
            i: int,
        |
            0 <= i < current.len() && (#[trigger] current[i]).folder_id == file.folder_id
                && components(current[i].relative_path) == components(file.relative_path)) {
            Seq::empty()
        } else {
            seq![
                FiledataView {
                    folder_id: file.folder_id,
                    relative_path: file.relative_path,
                    size: file.size,
                    modification_time: file.modification_time,
                    should_delete: true,
                },
            ]
        },
{
    let keep = |file: FiledataView| !has_file(current, file);
    let mark = |file: FiledataView| FiledataView { should_delete: true, ..file };
    let more = previous.push(file);
    let count = previous.len() as int;
    let none = Seq::<FiledataView>::empty();
    lemma_select_nothing(none, keep, mark);
    assert(none.take(0) =~= none);
    lemma_select_step(more, keep, mark, count);
    lemma_select_all(more, keep, mark);
    assert(more.take(count) =~= previous);
    assert(more[count] == file);
    if has_file(current, file) {
        let i = choose|i: int| 0 <= i < current.len() && same_file(#[trigger] current[i], file);
        assert(current[i].folder_id == file.folder_id);
    } else {
        assert forall|i: int| 0 <= i < current.len() implies (
        #[trigger] current[i]).folder_id != file.folder_id || components(current[i].relative_path)
            != components(file.relative_path) by {
            assert(!same_file(current[i], file));
        }
    }
    assert(deletions(more, current) =~= deletions(previous, current) + if has_file(
        current,
        file,
    ) {
        Seq::empty()
    } else {
        seq![mark(file)]
    });
}

/// One more client file adds what the server does about it behind what it does about the others: its
/// folder is created if the server has not listed it, and the file is deleted if it is so marked.
pub proof fn law_server_acts_in_turn(
    root_dir: Seq<char>,
    folder_ids: Seq<Seq<char>>,
    files: Seq<FiledataView>,
    file: FiledataView,
)
    ensures
        actions_for_files(root_dir, folder_ids, Seq::empty()) == Seq::<ActionView>::empty(),
        ({
            let folder = joined(root_dir, file.folder_id);
            let created = exists|i: int|
                0 <= i < folder_ids.len() && #[trigger] folder_ids[i] == file.folder_id;
            let added = match (created, file.should_delete) {
                (true, false) => Seq::empty(),
                (false, false) => seq![ActionView::CreateDirectory(folder)],
                (true, true) => seq![ActionView::DeleteFile(joined(folder, file.relative_path))],
                (false, true) => seq![
                    ActionView::CreateDirectory(folder),
                    ActionView::DeleteFile(joined(folder, file.relative_path)),
                ],
            };
            actions_for_files(root_dir, folder_ids, files.push(file)) == actions_for_files(
                root_dir,
                folder_ids,
                files,
            ) + added
        }),
{
    let folder = joined(root_dir, file.folder_id);
    assert(files.push(file).drop_last() =~= files);
    let added = actions_for_file(root_dir, folder_ids, file);
    let location = joined(folder, file.relative_path);
    if folder_ids.contains(file.folder_id) {
        if file.should_delete {
            assert(added =~= seq![ActionView::DeleteFile(location)]);
        } else {
            assert(added =~= Seq::empty());
        }
    } else if file.should_delete {
        assert(added =~= seq![
            ActionView::CreateDirectory(folder),
            ActionView::DeleteFile(location),
        ]);
    } else {
        assert(added =~= seq![ActionView::CreateDirectory(folder)]);
    }
}

/// A file stands in its folder, which stands in the root directory.
pub proof fn law_files_stand_in_their_folders(root_dir: Seq<char>, file: FiledataView)
    ensures
        file_location(root_dir, file) == joined(
            joined(root_dir, file.folder_id),
            file.relative_path,
        ),
        root_dir.len() > 0 && root_dir.last() != '/' && file.folder_id.len() > 0
            && file.folder_id[0] != '/' && file.folder_id.last() != '/' && (file.relative_path.len()
            == 0 || file.relative_path[0] != '/') ==> file_location(root_dir, file) == root_dir
            + seq!['/'] + file.folder_id + seq!['/'] + file.relative_path,
{
    if root_dir.len() > 0 && root_dir.last() != '/' && file.folder_id.len() > 0
        && file.folder_id[0] != '/' && file.folder_id.last() != '/' && (file.relative_path.len()
        == 0 || file.relative_path[0] != '/') {
        assert(file_location(root_dir, file) =~= root_dir + seq!['/'] + file.folder_id + seq!['/']
            + file.relative_path);
    }
}

/// A new file is written where the record at its index says, with all that the client sent.
pub proof fn law_new_files_are_written(
    state: SyncState,
    index: int,
    bytes: Seq<u8>,
    data: Seq<u8>,
    action: ResponseActionView,
)
    requires
        handles_response(state, ResponseView::NewFile(index, bytes), data, action),
        0 <= index < state.client_file_list.len(),
    ensures
        action == ResponseActionView::WriteFile(
            joined(
                joined(state.root_dir, state.client_file_list[index].folder_id),
                state.client_file_list[index].relative_path,
            ),
            bytes,
        ),
        file_for_response(state, ResponseView::NewFile(index, bytes)) is None,
{
}

/// A diff is applied to the file that the record at its index speaks of, and what comes of that
/// replaces the same file.
pub proof fn law_diffs_replace_their_file(
    state: SyncState,
    index: int,
    diff: Seq<u8>,
    data: Seq<u8>,
    action: ResponseActionView,
)
    requires
        handles_response(state, ResponseView::Diff(index, diff), data, action),
        0 <= index < state.client_file_list.len(),
    ensures
        ({
            let location = joined(
                joined(state.root_dir, state.client_file_list[index].folder_id),
                state.client_file_list[index].relative_path,
            );
            &&& action == ResponseActionView::ReplaceFile(location, rsync_patched(data, diff))
            &&& file_for_response(state, ResponseView::Diff(index, diff)) == Some(location)
        }),
{
}

/// A signature is answered with the way to the file that the record at its index speaks of, exactly
/// if it has a whole header that marks it as one of MD4, hashes of at most sixteen bytes, and whole
/// entries. Of any other nothing comes.
pub proof fn law_signatures_are_answered(
    state: SyncState,
    index: int,
    signature: Seq<u8>,
    data: Seq<u8>,
    action: ResponseActionView,
)
    requires
        handles_response(state, ResponseView::Signature(index, signature), data, action),
        0 <= index < state.client_file_list.len(),
    ensures
        ({
            let location = joined(
                joined(state.root_dir, state.client_file_list[index].folder_id),
                state.client_file_list[index].relative_path,
            );
            let hash_size = signature[8] * 0x1000000 + signature[9] * 0x10000 + signature[10] * 0x100
                + signature[11];
            let whole = signature.len() >= 12 && signature[0] == 0x72 && signature[1] == 0x73
                && signature[2] == 0x01 && (signature.len() - 12) % (4 + hash_size) == 0;
            let response = ResponseView::Signature(index, signature);
            &&& action == if whole && signature[3] == 0x36 && hash_size <= 16 {
                ResponseActionView::Reply(
                    RequestView::ApplyDiff(index, rsync_delta(signature, data)),
                )
            } else {
                ResponseActionView::Ignore
            }
            &&& file_for_response(state, response) == if whole && (signature[3] == 0x36
                || signature[3] == 0x37) {
                Some(location)
            } else {
                None
            }
        }),
{
}

/// An answer can be dealt with, unless it is a signature for a known file that would be answered but
/// is of empty blocks, or one whose entries are too long for this machine to measure.
pub proof fn law_answers_can_be_dealt_with(state: SyncState, response: ResponseView)
    ensures
        response is NewFile || response is Diff ==> response_manageable(state, response),
        response matches ResponseView::Signature(index, signature) ==> {
            let hash_size = signature[8] * 0x1000000 + signature[9] * 0x10000 + signature[10] * 0x100
                + signature[11];
            let answered = signature[0] == 0x72 && signature[1] == 0x73 && signature[2] == 0x01
                && signature[3] == 0x36 && hash_size <= 16 && (signature.len() - 12) % (4
                + hash_size) == 0;
            let empty = signature[4] == 0 && signature[5] == 0 && signature[6] == 0 && signature[7]
                == 0;
            response_manageable(state, response) <==> {
                ||| index >= state.client_file_list.len()
                ||| signature.len() < 12
                ||| 4 + hash_size <= usize::MAX && !(answered && empty)
            }
        },
{
}

/// The data for one more request is that of one more file exactly if it asks for a diff or sends a
/// file.
pub proof fn law_files_are_needed_in_turn(planned: Seq<PlannedView>, request: PlannedView)
    ensures
        files_needed(Seq::empty()) == Seq::<int>::empty(),
        files_needed(planned.push(request)) == files_needed(planned) + match request {
            PlannedView::RequestDiff(_, server) => seq![server],
            PlannedView::CreateFile(server) => seq![server],
            _ => Seq::empty(),
        },
{
    let keep = |p: PlannedView| file_needed(p) is Some;
    let index = |p: PlannedView| file_needed(p)->0;
    let more = planned.push(request);
    let count = planned.len() as int;
    let none = Seq::<PlannedView>::empty();
    lemma_select_nothing(none, keep, index);
    assert(none.take(0) =~= none);
    lemma_select_step(more, keep, index, count);
    lemma_select_all(more, keep, index);
    assert(more.take(count) =~= planned);
    assert(more[count] == request);
    assert(files_needed(more) =~= files_needed(planned) + match request {
        PlannedView::RequestDiff(_, server) => seq![server],
        PlannedView::CreateFile(server) => seq![server],
        _ => Seq::empty(),
    });
}

/// There is a request for each planned one, and it says what was planned. A request for a diff holds
/// the signature of the data in hashes of sixteen bytes, and a file is sent with its data, path and
/// folder. The data is the next that no request before has taken.
pub proof fn law_requests_say_what_was_planned(
    planned: Seq<PlannedView>,
    server_files: Seq<FiledataView>,
    contents: Seq<Seq<u8>>,
    requests: Seq<RequestView>,
    k: int,
)
    requires
        makes_requests(planned, server_files, contents, requests),
        0 <= k < planned.len(),
    ensures
        requests.len() == planned.len(),
        ({
            let data = contents[files_needed(planned.subrange(0, k)).len() as int];
            match planned[k] {
                PlannedView::CreateFolder(id) => requests[k] == RequestView::CreateFolder(id),
                PlannedView::RequestNewFile(index) => requests[k] == RequestView::RequestNewFile(
                    index,
                ),
                PlannedView::RequestSignature(index) => requests[k]
                    == RequestView::RequestSignature(index),
                PlannedView::Delete(index) => requests[k] == RequestView::Delete(index),
                PlannedView::RequestDiff(index, server) => {
                    &&& requests[k] == RequestView::RequestDiff(
                        index,
                        rsync_signature(data, ideal_block_size(server_files[server].size), 16),
                    )
                    &&& is_signature_of(requests[k]->RequestDiff_1, data)
                },
                PlannedView::CreateFile(server) => requests[k] == RequestView::CreateFile(
                    data,
                    server_files[server].relative_path,
                    server_files[server].folder_id,
                ),
            }
        }),
{
    assert(planned.subrange(0, k) =~= planned.take(k));
    assert(properly_signed(requests[k], data_for(planned, contents, k)));
}

/// Requests can be made exactly if there is data for each file that is needed and none more, and each
/// file that is to be signed is listed with sixteen bytes or more and has a signature that fits in
/// memory.
pub proof fn law_when_requests_can_be_made(
    planned: Seq<PlannedView>,
    server_files: Seq<FiledataView>,
    contents: Seq<Seq<u8>>,
)
    ensures
        plan_completable(planned, server_files, contents) <==> {
            &&& contents.len() == files_needed(planned).len()
            &&& forall|k: int|
                0 <= k < planned.len() ==> (#[trigger] planned[k] matches PlannedView::RequestDiff(
                    _,
                    server,
                ) ==> {
                    let data = contents[files_needed(planned.take(k)).len() as int];
                    let block_size = ideal_block_size(server_files[server].size);
                    &&& server_files[server].size >= 16
                    &&& 12 + (data.len() + block_size - 1) / block_size as int * 20 <= isize::MAX
                })
        },
{
    let rhs = contents.len() == files_needed(planned).len() && forall|k: int|
        0 <= k < planned.len() ==> (#[trigger] planned[k] matches PlannedView::RequestDiff(
            _,
            server,
        ) ==> {
            let data = contents[files_needed(planned.take(k)).len() as int];
            let block_size = ideal_block_size(server_files[server].size);
            &&& server_files[server].size >= 16
            &&& 12 + (data.len() + block_size - 1) / block_size as int * 20 <= isize::MAX
        });
    if rhs {
        assert forall|k: int| 0 <= k < planned.len() implies completable(
            #[trigger] planned[k],
            server_files,
            data_for(planned, contents, k),
        ) by {}
    }
    if plan_completable(planned, server_files, contents) {
        assert forall|k: int| 0 <= k < planned.len() implies (
        #[trigger] planned[k] matches PlannedView::RequestDiff(_, server) ==> {
            let data = contents[files_needed(planned.take(k)).len() as int];
            let block_size = ideal_block_size(server_files[server].size);
            &&& server_files[server].size >= 16
            &&& 12 + (data.len() + block_size - 1) / block_size as int * 20 <= isize::MAX
        }) by {
            assert(completable(planned[k], server_files, data_for(planned, contents, k)));
        }
    }
}

/// The requests about client files are those for the file, its signature, a diff or its deletion.
pub proof fn law_requests_about_client_files(index: int, server: int, id: Seq<char>)
    ensures
        client_file_of(PlannedView::RequestNewFile(index)) == Some(index),
        client_file_of(PlannedView::RequestSignature(index)) == Some(index),
        client_file_of(PlannedView::RequestDiff(index, server)) == Some(index),
        client_file_of(PlannedView::Delete(index)) == Some(index),
        client_file_of(PlannedView::CreateFolder(id)) is None,
        client_file_of(PlannedView::CreateFile(server)) is None,
{
}

/// A plan starts with the announcements of the folders, in the order of the folders.
pub proof fn law_plan_starts_with_folders(state: SyncState)
    ensures
        ({
            let folders = plan_folders(
                state.list_of_folder_ids,
                state.previously_synced_list_of_folder_ids,
            );
            &&& folders.len() <= plan(state).len()
            &&& plan(state).subrange(0, folders.len() as int) == folders
        }),
{
    let folders = folders_of(state);
    assert(plan(state).subrange(0, folders.len() as int) =~= folders);
}

} // verus!
