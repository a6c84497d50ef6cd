//! A synchronisation with one client, from the lists of both sides to the requests and answers.

use vstd::prelude::*;
use vstd::string::StringExecFns;

pub use crate::block_size::get_ideal_block_size;
pub use crate::files::Filedata;
pub use crate::listing::get_first_sync_data;
pub use crate::requests::{ClientFileResponse, ServerFileRequest};

use crate::files::{
    file_views, FiledataView, find_file, has_file, law_find_file, list_has_file, position_of_file,
};
use crate::listing::{
    gives_paths, is_kept, law_listed_files, law_listing_is_unique,
    law_longer_ignore_list_filters_listing, list_folders, lists_folders, walk_views, WalkEntry,
    WalkEntryView, walked_path, walks_are_consistent, walks_match,
};
use crate::lists::{
    lemma_select_all, lemma_select_nothing, lemma_select_prefix, lemma_select_step, select,
};
use crate::order::views;
use crate::path::{
    is_name, is_plain, join_path, joined, law_different_paths_stand_apart, same_path,
};
use crate::plan::{
    actions_for_file, actions_for_files, completable, completed, completed_plan, data_for,
    DEFAULT_CRYPTO_HASH_SIZE, deletions, file_for_response, file_location, file_needed,
    files_needed, handles_response, law_planned_requests_are_justified, makes_requests, plan,
    plan_client_file, plan_client_files, plan_completable, plan_folders, plan_unknown_files,
    properly_signed, response_manageable, SyncState,
};
use crate::requests::{
    ActionView, PlannedRequest, PlannedView, RequestView, ResponseAction, ResponseActionView,
    ServerAction,
};
use crate::rsync::{
    apply_delta, calculate_delta, calculate_signature, deserialize_signature,
    is_signature_answerable, is_signature_length_possible, law_signature_is_supported,
};
use crate::text::{list_contains, texts};

verus! {

/// The list of folders that `serde_json::from_str` reads from a text.
pub uninterp spec fn parsed_folder_ids(json: Seq<char>) -> Option<Seq<Seq<char>>>;

/// Calls `serde_json::from_str` for a list of strings. Claimed: whether the text is accepted, and
/// which strings it holds, depends on the text alone; no text at all is not accepted.
#[verifier::external_body]
fn parse_folder_ids_json(json: &str) -> (parsed: Result<Vec<String>, serde_json::Error>)
    ensures
        parsed is Ok <==> parsed_folder_ids(json@) is Some,
        parsed matches Ok(ids) ==> texts(ids@) == parsed_folder_ids(json@)->0,
        json@.len() == 0 ==> parsed is Err,
{
    serde_json::from_str::<Vec<String>>(json)
}

/// The name of a file that keeps a list from the last synchronisation with a client.
pub fn previous_list_filename(prefix: &str, client_id: &str, suffix: &str) -> (name: String)
    ensures
        name@ == prefix@ + client_id@ + suffix@,
{
    prefix.to_owned().concat(client_id).concat(suffix)
}

/// The folders that were read, or none where the text made no sense.
pub fn known_folder_ids(parsed: Result<Vec<String>, serde_json::Error>) -> (ids: Vec<String>)
    ensures
        texts(ids@) == match parsed {
            Ok(known) => texts(known@),
            Err(_) => Seq::empty(),
        },
{
    match parsed {
        Ok(known) => known,
        Err(_) => {
            let none: Vec<String> = Vec::new();
            assert(texts(none@) =~= Seq::empty());
            none
        },
    }
}

/// The folders of the last synchronisation, from the text of the file that keeps them. A file that
/// is missing or makes no sense counts as an empty list.
pub fn previously_synced_folder_ids(json: Option<String>) -> (ids: Vec<String>)
    ensures
        texts(ids@) == match json {
            Some(text) => match parsed_folder_ids(text@) {
                Some(known) => known,
                None => Seq::empty(),
            },
            None => Seq::empty(),
        },
{
    let text = match json {
        Some(text) => text,
        None => String::new(),
    };
    known_folder_ids(parse_folder_ids_json(text.as_str()))
}

/// The request that answers a signature for the client file at `file_index`, given what came of
/// computing a delta against it. Where no delta came of it there is nothing to answer.
pub fn answer_signature(
    file_index: usize,
    delta: Result<Result<Vec<u8>, fast_rsync::DiffError>, fast_rsync::SignatureParseError>,
) -> (action: ResponseAction)
    ensures
        action@ == match delta {
            Ok(Ok(diff)) => ResponseActionView::Reply(
                RequestView::ApplyDiff(file_index as int, diff@),
            ),
            _ => ResponseActionView::Ignore,
        },
{
    match delta {
        Ok(Ok(diff)) => ResponseAction::Reply(ServerFileRequest::ApplyDiff(file_index, diff)),
        _ => ResponseAction::Ignore,
    }
}

/// What to do with what came of applying a diff to the file at `path`: the file takes on all that was
/// written, also where the diff turned out to be faulty.
pub fn replace_with_applied(
    path: String,
    applied: (Vec<u8>, Result<(), fast_rsync::ApplyError>),
) -> (action: ResponseAction)
    ensures
        action@ == ResponseActionView::ReplaceFile(path@, applied.0@),
{
    ResponseAction::ReplaceFile(path, applied.0)
}

/// A synchronisation with one client.
pub struct SyncManager {
    pub root_dir: String,
    pub list_of_folder_ids: Vec<String>,
    pub server_file_list: Vec<Filedata>,
    pub previously_synced_server_file_list: Vec<Filedata>,
    pub previously_synced_list_of_folder_ids: Vec<String>,
    pub client_file_list: Vec<Filedata>,
    pub client_ignore_list: Vec<String>,
}

impl View for SyncManager {
    type V = SyncState;

    open spec fn view(&self) -> SyncState {
        SyncState {
            root_dir: self.root_dir@,
            list_of_folder_ids: texts(self.list_of_folder_ids@),
            server_file_list: file_views(self.server_file_list@),
            previously_synced_server_file_list: file_views(self.previously_synced_server_file_list@),
            previously_synced_list_of_folder_ids: texts(self.previously_synced_list_of_folder_ids@),
            client_file_list: file_views(self.client_file_list@),
            client_ignore_list: texts(self.client_ignore_list@),
        }
    }
}

/// A synchronisation that knows of both sides but has listed nothing yet. Where nothing is known of
/// the files of the last synchronisation, there are none.
pub open spec fn started(
    root_dir: Seq<char>,
    list_of_folder_ids: Seq<Seq<char>>,
    previously_synced_server_file_list: Option<Seq<FiledataView>>,
    previously_synced_list_of_folder_ids: Seq<Seq<char>>,
    client_file_list: Seq<FiledataView>,
    client_ignore_list: Seq<Seq<char>>,
) -> SyncState {
    SyncState {
        root_dir,
        list_of_folder_ids,
        server_file_list: Seq::empty(),
        previously_synced_server_file_list: match previously_synced_server_file_list {
            Some(files) => files,
            None => Seq::empty(),
        },
        previously_synced_list_of_folder_ids,
        client_file_list,
        client_ignore_list,
    }
}

/// The views of an optional list of files.
pub open spec fn optional_file_views(files: Option<Vec<Filedata>>) -> Option<Seq<FiledataView>> {
    match files {
        Some(list) => Some(file_views(list@)),
        None => None,
    }
}

/// From `before` to `after` the server's files have been listed from the walks: the listing is made
/// anew, what is gone since the last synchronisation is added to the client's list, and nothing
/// else has changed.
pub open spec fn lists_anew(
    before: SyncState,
    after: SyncState,
    walks: Seq<Seq<WalkEntryView>>,
) -> bool {
    &&& lists_folders(
        after.server_file_list,
        before.root_dir,
        before.list_of_folder_ids,
        walks,
        before.client_ignore_list,
    )
    &&& after == SyncState {
        server_file_list: after.server_file_list,
        client_file_list: before.client_file_list + deletions(
            before.previously_synced_server_file_list,
            after.server_file_list,
        ),
        ..before
    }
}

/// The walks fit a synchronisation and determine its listing.
pub open spec fn walks_determine_listing(
    state: SyncState,
    walks: Seq<Seq<WalkEntryView>>,
) -> bool {
    &&& walks_match(
        state.root_dir,
        state.list_of_folder_ids,
        walks,
        state.client_ignore_list,
    )
    &&& walks_are_consistent(
        state.root_dir,
        state.list_of_folder_ids,
        walks,
        state.client_ignore_list,
    )
}

impl SyncManager {
    /// Lists the server's files from a walk through each folder, in the order of the folders, and
    /// adds what has been deleted since the last synchronisation to the client's list.
    pub fn get_server_file_list(&mut self, walks: &Vec<Vec<WalkEntry>>)
        requires
            walks_match(
                old(self)@.root_dir,
                old(self)@.list_of_folder_ids,
                walk_views(walks@),
                old(self)@.client_ignore_list,
            ),
        ensures
            lists_anew(old(self)@, final(self)@, walk_views(walks@)),
    {
        let ghost before = self@;
        self.server_file_list =
        list_folders(
            self.root_dir.as_str(),
            &self.list_of_folder_ids,
            walks,
            &self.client_ignore_list,
        );
        let ghost previous = file_views(self.previously_synced_server_file_list@);
        let ghost server = file_views(self.server_file_list@);
        let ghost keep = |file: FiledataView|
            !has_file(server, file);
        let ghost mark = |file: FiledataView|
            FiledataView { should_delete: true, ..file };
        proof {
            lemma_select_nothing(previous, keep, mark);
            assert(before.client_file_list + Seq::empty() =~= before.client_file_list);
        }
        let count: usize = self.previously_synced_server_file_list.len();
        for i in 0..count
            invariant
                count == previous.len(),
                previous == file_views(self.previously_synced_server_file_list@),
                server == file_views(self.server_file_list@),
                keep == (|file: FiledataView| !has_file(server, file)),
                mark == (|file: FiledataView|
                    FiledataView { should_delete: true, ..file }),
                self@ == (SyncState {
                    server_file_list: server,
                    client_file_list: before.client_file_list + select(
                        previous.take(i as int),
                        keep,
                        mark,
                    ),
                    ..before
                }),
        {
            proof {
                lemma_select_step(previous, keep, mark, i as int);
            }
            assert(previous[i as int] == self.previously_synced_server_file_list@[i as int]@);
            if !list_has_file(
                &self.server_file_list,
                &self.previously_synced_server_file_list[i],
            ) {
                let ghost clients = self.client_file_list@;
                let mut item_to_delete = self.previously_synced_server_file_list[i].clone();
                item_to_delete.should_delete = true;
                self.client_file_list.push(item_to_delete);
                proof {
                    assert(file_views(self.client_file_list@) =~= file_views(clients).push(
                        item_to_delete@,
                    ));
                    assert(item_to_delete@ == mark(previous[i as int]));
                    let selected = select(previous.take(i as int), keep, mark);
                    assert((before.client_file_list + selected).push(item_to_delete@)
                        =~= before.client_file_list + selected.push(item_to_delete@));
                }
            }
        }
        proof {
            lemma_select_all(previous, keep, mark);
        }
    }

    /// Starts a synchronisation from the lists of both sides and lists the server's files once.
    pub fn new(
        root_dir: String,
        list_of_folder_ids: Vec<String>,
        walks: &Vec<Vec<WalkEntry>>,
        previously_synced_server_file_list: Option<Vec<Filedata>>,
        previously_synced_list_of_folder_ids: Vec<String>,
        client_file_list: Vec<Filedata>,
        client_ignore_list: Vec<String>,
    ) -> (manager: Self)
        requires
            walks_match(
                root_dir@,
                texts(list_of_folder_ids@),
                walk_views(walks@),
                texts(client_ignore_list@),
            ),
        ensures
            lists_anew(
                started(
                    root_dir@,
                    texts(list_of_folder_ids@),
                    optional_file_views(previously_synced_server_file_list),
                    texts(previously_synced_list_of_folder_ids@),
                    file_views(client_file_list@),
                    texts(client_ignore_list@),
                ),
                manager@,
                walk_views(walks@),
            ),
    {
        let previous = match previously_synced_server_file_list {
            Some(files) => files,
            None => {
                let none: Vec<Filedata> = Vec::new();
                assert(file_views(none@) =~= Seq::empty());
                none
            },
        };
        let mut manager = SyncManager {
            root_dir,
            list_of_folder_ids,
            server_file_list: Vec::new(),
            previously_synced_server_file_list: previous,
            previously_synced_list_of_folder_ids,
            client_file_list,
            client_ignore_list,
        };
        assert(manager@.server_file_list =~= Seq::empty());
        manager.get_server_file_list(walks);
        manager
    }

    /// Where a file stands on the server's disk.
    pub fn file_path(&self, file: &Filedata) -> (path: String)
        ensures
            path@ == file_location(self@.root_dir, file@),
    {
        let folder = join_path(self.root_dir.as_str(), file.folder_id.as_str());
        join_path(folder.as_str(), file.relative_path.as_str())
    }

    /// What to do to delete a file on the server.
    pub fn delete_file_on_server(&self, file_to_delete: &Filedata) -> (action: ServerAction)
        ensures
            action@ == ActionView::DeleteFile(
                file_location(self@.root_dir, file_to_delete@),
            ),
    {
        ServerAction::DeleteFile(self.file_path(file_to_delete))
    }

    /// What the server does on its own disk before it asks anything of the client.
    pub fn server_actions(&self) -> (actions: Vec<ServerAction>)
        ensures
            views(actions@) == actions_for_files(
                self@.root_dir,
                self@.list_of_folder_ids,
                self@.client_file_list,
            ),
    {
        let ghost files = self@.client_file_list;
        let mut actions: Vec<ServerAction> = Vec::new();
        assert(views(actions@) =~= Seq::empty());
        assert(files.take(0) =~= Seq::empty());
        for i in 0..self.client_file_list.len()
            invariant
                files == self@.client_file_list,
                views(actions@) == actions_for_files(
                    self@.root_dir,
                    self@.list_of_folder_ids,
                    files.take(i as int),
                ),
        {
            let client_file = &self.client_file_list[i];
            assert(files.take(i as int + 1).drop_last() =~= files.take(i as int));
            assert(files.take(i as int + 1).last() == client_file@);
            let ghost before = views(actions@);
            let ghost added: Seq<ActionView> = Seq::empty();
            if !list_contains(&self.list_of_folder_ids, &client_file.folder_id) {
                let action = ServerAction::CreateDirectory(
                    join_path(self.root_dir.as_str(), client_file.folder_id.as_str()),
                );
                actions.push(action);
                proof {
                    added = seq![action@];
                }
            }
            assert(views(actions@) =~= before + added);
            if client_file.should_delete {
                let action = self.delete_file_on_server(client_file);
                actions.push(action);
                proof {
                    added = added + seq![action@];
                }
            }
            assert(views(actions@) =~= before + added);
            assert(added =~= actions_for_file(
                self@.root_dir,
                self@.list_of_folder_ids,
                client_file@,
            ));
        }
        assert(files.take(files.len() as int) =~= files);
        actions
    }

    /// Decides what to ask for about the client file at `index`.
    fn plan_for_client_file(&self, index: usize) -> (planned: Option<PlannedRequest>)
        requires
            index < self.client_file_list@.len(),
        ensures
            match plan_client_file(
                index as int,
                self@.client_file_list[index as int],
                self@.server_file_list,
            ) {
                Some(request) => planned is Some && planned->0@ == request,
                None => planned is None,
            },
    {
        let client_file = &self.client_file_list[index];
        match position_of_file(&self.server_file_list, client_file) {
            Some(found) => {
                let server_file = &self.server_file_list[found];
                if server_file.should_delete {
                    Some(PlannedRequest::Delete(index))
                } else if client_file.size != server_file.size {
                    if client_file.modification_time >= server_file.modification_time {
                        Some(PlannedRequest::RequestDiff(index, found))
                    } else {
                        Some(PlannedRequest::RequestSignature(index))
                    }
                } else {
                    None
                }
            },
            None => Some(PlannedRequest::RequestNewFile(index)),
        }
    }

    /// The folders that the client does not have yet.
    fn plan_new_folders(&self) -> (planned: Vec<PlannedRequest>)
        ensures
            views(planned@) == plan_folders(
                self@.list_of_folder_ids,
                self@.previously_synced_list_of_folder_ids,
            ),
    {
        let ghost ids = self@.list_of_folder_ids;
        let ghost previous = self@.previously_synced_list_of_folder_ids;
        let ghost keep = |id: Seq<char>| !previous.contains(id);
        let ghost create = |id: Seq<char>| PlannedView::CreateFolder(id);
        let mut planned: Vec<PlannedRequest> = Vec::new();
        proof {
            lemma_select_nothing(ids, keep, create);
            assert(views(planned@) =~= Seq::empty());
        }
        for i in 0..self.list_of_folder_ids.len()
            invariant
                ids == self@.list_of_folder_ids,
                previous == self@.previously_synced_list_of_folder_ids,
                keep == (|id: Seq<char>| !previous.contains(id)),
                create == (|id: Seq<char>| PlannedView::CreateFolder(id)),
                views(planned@) == select(ids.take(i as int), keep, create),
        {
            let id = &self.list_of_folder_ids[i];
            assert(ids[i as int] == id@);
            proof {
                lemma_select_step(ids, keep, create, i as int);
            }
            if !list_contains(&self.previously_synced_list_of_folder_ids, id) {
                let ghost before = planned@;
                let request = PlannedRequest::CreateFolder(id.clone());
                planned.push(request);
                assert(views(planned@) =~= views(before).push(request@));
            }
        }
        proof {
            lemma_select_all(ids, keep, create);
        }
        planned
    }

    /// Decides what to ask of the client, before any of the server's files is looked into.
    pub fn plan_requests(&self) -> (planned: Vec<PlannedRequest>)
        ensures
            views(planned@) == plan(self@),
    {
        let mut planned = self.plan_new_folders();
        let ghost folders = views(planned@);
        let ghost clients = self@.client_file_list;
        let ghost servers = self@.server_file_list;
        assert(clients.take(0) =~= Seq::empty());
        assert(folders + Seq::empty() =~= folders);
        for i in 0..self.client_file_list.len()
            invariant
                clients == self@.client_file_list,
                servers == self@.server_file_list,
                views(planned@) == folders + plan_client_files(clients.take(i as int), servers),
        {
            assert(clients.take(i as int + 1).drop_last() =~= clients.take(i as int));
            assert(clients.take(i as int + 1).last() == clients[i as int]);
            match self.plan_for_client_file(i) {
                Some(request) => {
                    let ghost before = planned@;
                    planned.push(request);
                    assert(views(planned@) =~= views(before).push(request@));
                    assert(views(planned@) =~= folders + plan_client_files(
                        clients.take(i as int + 1),
                        servers,
                    ));
                },
                None => {},
            }
        }
        assert(clients.take(clients.len() as int) =~= clients);
        let ghost known = self@.client_file_list;
        let ghost asked = views(planned@);
        assert(servers.take(0) =~= Seq::empty());
        assert(asked + Seq::empty() =~= asked);
        for i in 0..self.server_file_list.len()
            invariant
                servers == self@.server_file_list,
                known == self@.client_file_list,
                views(planned@) == asked + plan_unknown_files(servers.take(i as int), known),
        {
            assert(servers.take(i as int + 1).drop_last() =~= servers.take(i as int));
            assert(servers.take(i as int + 1).last() == servers[i as int]);
            assert(servers[i as int] == self.server_file_list@[i as int]@);
            if !list_has_file(&self.client_file_list, &self.server_file_list[i]) {
                let ghost before = planned@;
                let request = PlannedRequest::CreateFile(i);
                planned.push(request);
                assert(views(planned@) =~= views(before).push(request@));
                assert(views(planned@) =~= asked + plan_unknown_files(
                    servers.take(i as int + 1),
                    known,
                ));
            }
        }
        assert(servers.take(servers.len() as int) =~= servers);
        planned
    }

    /// Where the files stand whose data the planned requests need, in turn.
    pub fn files_to_read(&self) -> (paths: Vec<String>)
        ensures
            texts(paths@) == files_needed(plan(self@)).map_values(
                |server: int| file_location(self@.root_dir, self@.server_file_list[server]),
            ),
    {
        let planned = self.plan_requests();
        let ghost all = plan(self@);
        let ghost keep = |p: PlannedView| file_needed(p) is Some;
        let ghost index = |p: PlannedView| file_needed(p)->0;
        let ghost locate = |server: int|
            file_location(self@.root_dir, self@.server_file_list[server]);
        let mut paths: Vec<String> = Vec::new();
        proof {
            lemma_select_nothing(all, keep, index);
            assert(texts(paths@) =~= select(all.take(0), keep, index).map_values(locate));
        }
        for k in 0..planned.len()
            invariant
                all == plan(self@),
                all == views(planned@),
                keep == (|p: PlannedView| file_needed(p) is Some),
                index == (|p: PlannedView| file_needed(p)->0),
                locate == (|server: int|
                    file_location(self@.root_dir, self@.server_file_list[server])),
                texts(paths@) == select(all.take(k as int), keep, index).map_values(locate),
        {
            assert(all[k as int] == planned@[k as int]@);
            proof {
                lemma_select_step(all, keep, index, k as int);
                law_planned_requests_are_justified(self@, k as int);
            }
            match needed_file(&planned[k]) {
                Some(server) => {
                    let ghost before = paths@;
                    let path = self.file_path(&self.server_file_list[server]);
                    paths.push(path);
                    proof {
                        let chosen = select(all.take(k as int), keep, index);
                        assert(texts(paths@) =~= texts(before).push(path@));
                        assert(chosen.push(server as int).map_values(locate)
                            =~= chosen.map_values(locate).push(path@));
                    }
                },
                None => {},
            }
        }
        proof {
            lemma_select_all(all, keep, index);
        }
        paths
    }

    /// Turns a planned request into the one that is sent, with the data of the file it needs.
    fn complete_request(&self, planned: &PlannedRequest, data: &Vec<u8>) -> (request: ServerFileRequest)
        requires
            file_needed(planned@) matches Some(server) ==> server < self.server_file_list@.len(),
            completable(planned@, self@.server_file_list, data@),
        ensures
            request@ == completed(planned@, self@.server_file_list, data@),
            properly_signed(request@, data@),
    {
        match planned {
            PlannedRequest::CreateFolder(id) => ServerFileRequest::CreateFolder(id.clone()),
            PlannedRequest::RequestNewFile(index) => ServerFileRequest::RequestNewFile(*index),
            PlannedRequest::RequestSignature(index) => ServerFileRequest::RequestSignature(*index),
            PlannedRequest::RequestDiff(index, server) => {
                let block_size: u32 = get_ideal_block_size(self.server_file_list[*server].size);
                let signature = calculate_signature(
                    data.as_slice(),
                    block_size,
                    DEFAULT_CRYPTO_HASH_SIZE,
                );
                proof {
                    law_signature_is_supported(signature@, data@);
                }
                ServerFileRequest::RequestDiff(*index, signature)
            },
            PlannedRequest::Delete(index) => ServerFileRequest::Delete(*index),
            PlannedRequest::CreateFile(server) => {
                let file = &self.server_file_list[*server];
                let copy = data.clone();
                assert(copy@ =~= data@);
                ServerFileRequest::CreateFile(
                    copy,
                    file.relative_path.clone(),
                    file.folder_id.clone(),
                )
            },
        }
    }

    /// Whether requests can be made of the plan with the data of these files.
    pub fn can_compare(&self, contents: &Vec<Vec<u8>>) -> (possible: bool)
        ensures
            possible == plan_completable(
                plan(self@),
                self@.server_file_list,
                views(contents@),
            ),
    {
        let planned = self.plan_requests();
        let ghost all = plan(self@);
        let ghost keep = |p: PlannedView| file_needed(p) is Some;
        let ghost index = |p: PlannedView| file_needed(p)->0;
        let ghost data = views(contents@);
        let mut read: usize = 0;
        let mut possible: bool = true;
        proof {
            lemma_select_nothing(all, keep, index);
        }
        for k in 0..planned.len()
            invariant
                all == plan(self@),
                all == views(planned@),
                keep == (|p: PlannedView| file_needed(p) is Some),
                index == (|p: PlannedView| file_needed(p)->0),
                data == views(contents@),
                read == select(all.take(k as int), keep, index).len(),
                read <= k,
                possible ==> read <= contents@.len(),
                possible ==> forall|j: int|
                    0 <= j < k ==> completable(
                        #[trigger] all[j],
                        self@.server_file_list,
                        data_for(all, data, j),
                    ),
                !possible ==> !plan_completable(all, self@.server_file_list, data),
        {
            assert(all[k as int] == planned@[k as int]@);
            proof {
                lemma_select_step(all, keep, index, k as int);
                law_planned_requests_are_justified(self@, k as int);
                lemma_reads_grow(all, k as int + 1);
            }
            match needed_file(&planned[k]) {
                Some(_) => {
                    if possible && read < contents.len() {
                        assert(data[read as int] == contents@[read as int]@);
                        possible = self.can_complete(&planned[k], &contents[read]);
                        assert(possible == completable(
                            all[k as int],
                            self@.server_file_list,
                            data_for(all, data, k as int),
                        ));
                    } else {
                        possible = false;
                    }
                    read = read + 1;
                },
                None => {},
            }
        }
        proof {
            lemma_select_all(all, keep, index);
        }
        possible && read == contents.len()
    }

    /// Whether a planned request can be completed with this data.
    fn can_complete(&self, planned: &PlannedRequest, data: &Vec<u8>) -> (possible: bool)
        requires
            file_needed(planned@) matches Some(server) ==> server < self.server_file_list@.len(),
        ensures
            possible == completable(planned@, self@.server_file_list, data@),
    {
        match planned {
            PlannedRequest::RequestDiff(_, server) => {
                let block_size: u32 = get_ideal_block_size(self.server_file_list[*server].size);
                block_size > 0 && is_signature_length_possible(
                    data.len(),
                    block_size,
                    DEFAULT_CRYPTO_HASH_SIZE,
                )
            },
            _ => true,
        }
    }

    /// Compares the client's files with the server's and makes the requests that bring the client
    /// in step. `contents` is the data of the files to read, in turn.
    pub fn compare_remote_file_list(&self, contents: &Vec<Vec<u8>>) -> (requests: Vec<
        ServerFileRequest,
    >)
        requires
            plan_completable(plan(self@), self@.server_file_list, views(contents@)),
        ensures
            makes_requests(
                plan(self@),
                self@.server_file_list,
                views(contents@),
                views(requests@),
            ),
    {
        let planned = self.plan_requests();
        let ghost all = plan(self@);
        let ghost keep = |p: PlannedView| file_needed(p) is Some;
        let ghost index = |p: PlannedView| file_needed(p)->0;
        let ghost data = views(contents@);
        let ghost servers = self@.server_file_list;
        let nothing: Vec<u8> = Vec::new();
        let mut requests: Vec<ServerFileRequest> = Vec::new();
        let mut read: usize = 0;
        proof {
            lemma_select_nothing(all, keep, index);
        }
        for k in 0..planned.len()
            invariant
                all == plan(self@),
                all == views(planned@),
                keep == (|p: PlannedView| file_needed(p) is Some),
                index == (|p: PlannedView| file_needed(p)->0),
                data == views(contents@),
                servers == self@.server_file_list,
                plan_completable(all, servers, data),
                read == select(all.take(k as int), keep, index).len(),
                read <= contents@.len(),
                requests@.len() == k,
                forall|j: int|
                    0 <= j < k ==> #[trigger] requests@[j]@ == completed(
                        all[j],
                        servers,
                        data_for(all, data, j),
                    ),
                forall|j: int|
                    0 <= j < k ==> properly_signed(
                        #[trigger] requests@[j]@,
                        data_for(all, data, j),
                    ),
        {
            assert(all[k as int] == planned@[k as int]@);
            proof {
                lemma_select_step(all, keep, index, k as int);
                law_planned_requests_are_justified(self@, k as int);
                lemma_reads_grow(all, k as int + 1);
            }
            match needed_file(&planned[k]) {
                Some(_) => {
                    assert(data[read as int] == contents@[read as int]@);
                    requests.push(self.complete_request(&planned[k], &contents[read]));
                    read = read + 1;
                },
                None => {
                    requests.push(self.complete_request(&planned[k], &nothing));
                },
            }
        }
        assert(views(requests@) =~= completed_plan(all, servers, data));
        requests
    }

    /// Whether a client's answer can be dealt with.
    pub fn can_handle(&self, client_file_response: &ClientFileResponse) -> (possible: bool)
        ensures
            possible == response_manageable(self@, client_file_response@),
    {
        match client_file_response {
            ClientFileResponse::Signature(file_index, signature_bytes) => *file_index
                >= self.client_file_list.len() || is_signature_answerable(signature_bytes),
            _ => true,
        }
    }

    /// The file whose data is needed to deal with a client's answer.
    pub fn file_to_read(&self, client_file_response: &ClientFileResponse) -> (path: Option<String>)
        requires
            response_manageable(self@, client_file_response@),
        ensures
            match file_for_response(self@, client_file_response@) {
                Some(location) => path is Some && path->0@ == location,
                None => path is None,
            },
    {
        match client_file_response {
            ClientFileResponse::NewFile(_, _) => None,
            ClientFileResponse::Signature(file_index, signature_bytes) => {
                if *file_index >= self.client_file_list.len() {
                    return None;
                }
                let bytes = signature_bytes.clone();
                assert(bytes@ =~= signature_bytes@);
                match deserialize_signature(bytes) {
                    Ok(_) => Some(self.file_path(&self.client_file_list[*file_index])),
                    Err(_) => None,
                }
            },
            ClientFileResponse::Diff(file_index, _) => {
                if *file_index >= self.client_file_list.len() {
                    return None;
                }
                Some(self.file_path(&self.client_file_list[*file_index]))
            },
        }
    }

    /// Decides what to do about a client's answer. `server_file_bytes` is the data of the file to
    /// read, where there is one.
    pub fn handle_client_file_response(
        &self,
        client_file_response: ClientFileResponse,
        server_file_bytes: &Vec<u8>,
    ) -> (action: ResponseAction)
        requires
            response_manageable(self@, client_file_response@),
        ensures
            handles_response(
                self@,
                client_file_response@,
                server_file_bytes@,
                action@,
            ),
    {
        match client_file_response {
            ClientFileResponse::NewFile(file_index, file_bytes) => {
                if file_index >= self.client_file_list.len() {
                    return ResponseAction::Ignore;
                }
                ResponseAction::WriteFile(
                    self.file_path(&self.client_file_list[file_index]),
                    file_bytes,
                )
            },
            ClientFileResponse::Signature(file_index, signature_bytes) => {
                if file_index >= self.client_file_list.len() {
                    return ResponseAction::Ignore;
                }
                answer_signature(
                    file_index,
                    calculate_delta(signature_bytes, server_file_bytes.as_slice()),
                )
            },
            ClientFileResponse::Diff(file_index, diff_bytes) => {
                if file_index >= self.client_file_list.len() {
                    return ResponseAction::Ignore;
                }
                replace_with_applied(
                    self.file_path(&self.client_file_list[file_index]),
                    apply_delta(server_file_bytes.as_slice(), diff_bytes.as_slice()),
                )
            },
        }
    }
}

/// The server file whose data a planned request needs.
fn needed_file(planned: &PlannedRequest) -> (needed: Option<usize>)
    ensures
        match file_needed(planned@) {
            Some(server) => needed is Some && needed->0 == server,
            None => needed is None,
        },
{
    match planned {
        PlannedRequest::RequestDiff(_, server) => Some(*server),
        PlannedRequest::CreateFile(server) => Some(*server),
        _ => None,
    }
}

/// Where the server's files have just been listed, none of them is marked as deleted, so the client
/// is not told to delete anything.
pub proof fn law_fresh_listing_deletes_nothing(
    state: SyncState,
    walks: Seq<Seq<WalkEntryView>>,
    k: int,
)
    requires
        lists_folders(
            state.server_file_list,
            state.root_dir,
            state.list_of_folder_ids,
            walks,
            state.client_ignore_list,
        ),
        walks.len() == state.list_of_folder_ids.len(),
        0 <= k < plan(state).len(),
    ensures
        plan(state)[k] !is Delete,
{
    law_planned_requests_are_justified(state, k);
    if plan(state)[k] is Delete {
        let index = plan(state)[k]->Delete_0;
        let servers = state.server_file_list;
        law_find_file(servers, state.client_file_list[index]);
        let file = servers[find_file(servers, state.client_file_list[index])->0];
        assert(servers.contains(file));
        law_listed_files(
            servers,
            state.root_dir,
            state.list_of_folder_ids,
            walks,
            state.client_ignore_list,
            file,
        );
    }
}

/// The same walks bring a synchronisation to the same state.
pub proof fn law_listing_is_determined(
    before: SyncState,
    one: SyncState,
    other: SyncState,
    walks: Seq<Seq<WalkEntryView>>,
)
    requires
        lists_anew(before, one, walks),
        lists_anew(before, other, walks),
        walks_determine_listing(before, walks),
    ensures
        one == other,
{
    law_listing_is_unique(
        one.server_file_list,
        other.server_file_list,
        before.root_dir,
        before.list_of_folder_ids,
        walks,
        before.client_ignore_list,
    );
}

/// Starting a synchronisation is one listing of what is known at the start: whatever state comes of
/// listing that once is the state that `SyncManager::new` gives.
pub proof fn law_starting_is_listing_once(
    root_dir: Seq<char>,
    list_of_folder_ids: Seq<Seq<char>>,
    previous_files: Option<Seq<FiledataView>>,
    previous_folder_ids: Seq<Seq<char>>,
    client_file_list: Seq<FiledataView>,
    client_ignore_list: Seq<Seq<char>>,
    walks: Seq<Seq<WalkEntryView>>,
    new: SyncState,
    listed: SyncState,
)
    requires
        ({
            let start = started(
                root_dir,
                list_of_folder_ids,
                previous_files,
                previous_folder_ids,
                client_file_list,
                client_ignore_list,
            );
            &&& lists_anew(start, new, walks)
            &&& lists_anew(start, listed, walks)
            &&& walks_determine_listing(start, walks)
        }),
    ensures
        new == listed,
{
    let start = started(
        root_dir,
        list_of_folder_ids,
        previous_files,
        previous_folder_ids,
        client_file_list,
        client_ignore_list,
    );
    law_listing_is_determined(start, new, listed, walks);
}

/// Listing again from the same walks makes the same listing anew, and adds the same deletions to the
/// client's list once more.
pub proof fn law_listing_again_repeats_deletions(
    before: SyncState,
    once: SyncState,
    twice: SyncState,
    walks: Seq<Seq<WalkEntryView>>,
)
    requires
        lists_anew(before, once, walks),
        lists_anew(once, twice, walks),
        walks_determine_listing(before, walks),
    ensures
        ({
            let gone = deletions(before.previously_synced_server_file_list, once.server_file_list);
            &&& once.client_file_list == before.client_file_list + gone
            &&& twice == SyncState {
                client_file_list: before.client_file_list + gone + gone,
                ..once
            }
        }),
{
    law_listing_is_unique(
        once.server_file_list,
        twice.server_file_list,
        before.root_dir,
        before.list_of_folder_ids,
        walks,
        before.client_ignore_list,
    );
}

/// With more texts to ignore, the listing from the same walks is what remains of it without the files
/// whose whole path holds one of them, in the same order. The paths are those of a walk through a
/// directory: the directory itself, or a path joined onto it.
pub proof fn law_ignoring_more_lists_fewer(
    before: SyncState,
    more: Seq<Seq<char>>,
    after: SyncState,
    fewer: SyncState,
    walks: Seq<Seq<WalkEntryView>>,
)
    requires
        lists_anew(before, after, walks),
        lists_anew(SyncState { client_ignore_list: more, ..before }, fewer, walks),
        walks_determine_listing(before, walks),
        forall|i: int|
            0 <= i < before.client_ignore_list.len() ==> more.contains(
                #[trigger] before.client_ignore_list[i],
            ),
        gives_paths(
            walked_path(before.root_dir),
            before.root_dir,
            before.list_of_folder_ids,
            walks,
            before.client_ignore_list,
        ),
    ensures
        fewer.server_file_list == after.server_file_list.filter(
            is_kept(walked_path(before.root_dir), more),
        ),
{
    law_longer_ignore_list_filters_listing(
        after.server_file_list,
        fewer.server_file_list,
        before.root_dir,
        before.list_of_folder_ids,
        walks,
        before.client_ignore_list,
        more,
        walked_path(before.root_dir),
    );
}

/// The beginning of a plan needs no more files than all of it.
proof fn lemma_reads_grow(planned: Seq<PlannedView>, k: int)
    requires
        0 <= k <= planned.len(),
    ensures
        files_needed(planned.take(k)).len() <= files_needed(planned).len(),
{
    let keep = |p: PlannedView| file_needed(p) is Some;
    let index = |p: PlannedView| file_needed(p)->0;
    lemma_select_prefix(planned, keep, index, k);
}

/// A synchronisation says what stands in it.
pub proof fn law_synchronisation_says_what_it_holds(manager: SyncManager)
    ensures
        manager@.root_dir == manager.root_dir@,
        manager@.list_of_folder_ids == texts(manager.list_of_folder_ids@),
        manager@.server_file_list == file_views(manager.server_file_list@),
        manager@.previously_synced_server_file_list == file_views(
            manager.previously_synced_server_file_list@,
        ),
        manager@.previously_synced_list_of_folder_ids == texts(
            manager.previously_synced_list_of_folder_ids@,
        ),
        manager@.client_file_list == file_views(manager.client_file_list@),
        manager@.client_ignore_list == texts(manager.client_ignore_list@),
{
}

/// A listing replaces the server's list by one of the walks, and keeps the client's list, with nothing
/// but what is gone from the server behind it. All else stays as it was.
pub proof fn law_listing_changes_two_lists(
    before: SyncState,
    after: SyncState,
    walks: Seq<Seq<WalkEntryView>>,
)
    requires
        lists_anew(before, after, walks),
    ensures
        lists_folders(
            after.server_file_list,
            before.root_dir,
            before.list_of_folder_ids,
            walks,
            before.client_ignore_list,
        ),
        after.client_file_list == before.client_file_list + deletions(
            before.previously_synced_server_file_list,
            after.server_file_list,
        ),
        after.root_dir == before.root_dir,
        after.list_of_folder_ids == before.list_of_folder_ids,
        after.previously_synced_server_file_list == before.previously_synced_server_file_list,
        after.previously_synced_list_of_folder_ids == before.previously_synced_list_of_folder_ids,
        after.client_ignore_list == before.client_ignore_list,
{
}

/// A new synchronisation holds what it was given.
pub proof fn law_new_synchronisation_holds_what_it_is_given(
    root_dir: String,
    list_of_folder_ids: Vec<String>,
    walks: &Vec<Vec<WalkEntry>>,
    previous_files: Option<Vec<Filedata>>,
    previous_folder_ids: Vec<String>,
    client_file_list: Vec<Filedata>,
    client_ignore_list: Vec<String>,
    manager: SyncManager,
)
    requires
        call_ensures(
            SyncManager::new,
            (
                root_dir,
                list_of_folder_ids,
                walks,
                previous_files,
                previous_folder_ids,
                client_file_list,
                client_ignore_list,
            ),
            manager,
        ),
    ensures
        manager@.root_dir == root_dir@,
        manager@.list_of_folder_ids == texts(list_of_folder_ids@),
        previous_files matches Some(files) ==> manager@.previously_synced_server_file_list
            == file_views(files@),
        previous_files is None ==> manager@.previously_synced_server_file_list == Seq::<
            FiledataView,
        >::empty(),
        manager@.previously_synced_list_of_folder_ids == texts(previous_folder_ids@),
        manager@.client_ignore_list == texts(client_ignore_list@),
        manager@.client_file_list == file_views(client_file_list@) + deletions(
            manager@.previously_synced_server_file_list,
            manager@.server_file_list,
        ),
        lists_folders(
            manager@.server_file_list,
            root_dir@,
            texts(list_of_folder_ids@),
            walk_views(walks@),
            texts(client_ignore_list@),
        ),
{
}

/// Whatever is planned goes out as a request, and the files to read are those that the requests need,
/// where their records say.
pub proof fn law_comparison_follows_the_plan(
    manager: &SyncManager,
    contents: &Vec<Vec<u8>>,
    planned: Vec<PlannedRequest>,
    paths: Vec<String>,
    requests: Vec<ServerFileRequest>,
    n: int,
)
    requires
        call_ensures(SyncManager::plan_requests, (manager,), planned),
        call_ensures(SyncManager::files_to_read, (manager,), paths),
        call_ensures(SyncManager::compare_remote_file_list, (manager, contents), requests),
        0 <= n < paths@.len(),
    ensures
        requests@.len() == planned@.len(),
        makes_requests(
            views(planned@),
            file_views(manager.server_file_list@),
            views(contents@),
            views(requests@),
        ),
        paths@.len() == files_needed(views(planned@)).len(),
        ({
            let server = files_needed(views(planned@))[n];
            paths@[n]@ == file_location(
                manager.root_dir@,
                file_views(manager.server_file_list@)[server],
            )
        }),
{
    let needed = files_needed(views(planned@));
    assert(texts(paths@)[n] == paths@[n]@);
    assert(texts(paths@).len() == needed.len());
    assert(views(requests@).len() == requests@.len());
}

/// A file's location is where the synchronisation looks for it and where it deletes it.
pub proof fn law_files_are_deleted_where_they_stand(
    manager: &SyncManager,
    file: &Filedata,
    path: String,
    action: ServerAction,
)
    requires
        call_ensures(SyncManager::file_path, (manager, file), path),
        call_ensures(SyncManager::delete_file_on_server, (manager, file), action),
    ensures
        action matches ServerAction::DeleteFile(deleted) && deleted@ == path@,
        path@ == joined(joined(manager.root_dir@, file.folder_id@), file.relative_path@),
{
}

/// The answer for a new file is to write what was sent to the place of the client's record at that
/// index. Answers about different files go to different places, where folders are single names
/// and paths are plain.
pub proof fn law_new_files_go_to_their_own_place(
    manager: &SyncManager,
    index: usize,
    bytes: Vec<u8>,
    read: &Vec<u8>,
    action: ResponseAction,
    other_index: usize,
    other_bytes: Vec<u8>,
    other_read: &Vec<u8>,
    other_action: ResponseAction,
)
    requires
        call_ensures(
            SyncManager::handle_client_file_response,
            (manager, ClientFileResponse::NewFile(index, bytes), read),
            action,
        ),
        call_ensures(
            SyncManager::handle_client_file_response,
            (manager, ClientFileResponse::NewFile(other_index, other_bytes), other_read),
            other_action,
        ),
        index < manager.client_file_list@.len(),
        other_index < manager.client_file_list@.len(),
    ensures
        action matches ResponseAction::WriteFile(path, data) && data@ == bytes@ && path@ == joined(
            joined(manager.root_dir@, manager.client_file_list@[index as int].folder_id@),
            manager.client_file_list@[index as int].relative_path@,
        ),
        ({
            let file = manager.client_file_list@[index as int];
            let other = manager.client_file_list@[other_index as int];
            is_name(file.folder_id@) && is_name(other.folder_id@) && is_plain(
                file.relative_path@,
            ) && is_plain(other.relative_path@) && (file.folder_id@ != other.folder_id@
                || file.relative_path@ != other.relative_path@) ==> !same_path(
                action->WriteFile_0@,
                other_action->WriteFile_0@,
            )
        }),
{
    let file = manager.client_file_list@[index as int];
    let other = manager.client_file_list@[other_index as int];
    assert(manager@.client_file_list[index as int] == file@);
    assert(manager@.client_file_list[other_index as int] == other@);
    if is_name(file.folder_id@) && is_name(other.folder_id@) && is_plain(file.relative_path@)
        && is_plain(other.relative_path@) && (file.folder_id@ != other.folder_id@
        || file.relative_path@ != other.relative_path@) {
        law_different_paths_stand_apart(
            manager.root_dir@,
            file.folder_id@,
            file.relative_path@,
            other.folder_id@,
            other.relative_path@,
        );
    }
}

} // verus!
