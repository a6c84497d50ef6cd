//! From what a walk through the folders turns up to the lists of files that are synchronised.

use vstd::hash_map::StringHashMap;
use vstd::prelude::*;

use crate::files::{file_views, Filedata, FiledataView};
use crate::lists::{
    lemma_select_all, lemma_select_fewer, lemma_select_members, lemma_select_nothing,
    lemma_select_places, lemma_select_step, select, selected_from,
};
use crate::order::{
    in_order, lemma_filter_keeps_order, lemma_filter_multiset, lemma_order_is_unique, Ranked, sort,
    views,
};
use crate::path::{
    join_path, joined, law_path_order, law_strip_keeps_paths_apart, path_before, relative_to,
    same_path, strip_base,
};
use crate::text::{contains_text, occurs_at, occurs_in, text_before, texts};

verus! {

/// Something that stands directly in the root directory.
#[derive(Debug)]
pub struct DirItem {
    /// Its name, unless that is not text.
    pub name: Option<String>,
    pub is_dir: bool,
}

/// What a `DirItem` says.
pub struct DirItemView {
    pub name: Option<Seq<char>>,
    pub is_dir: bool,
}

/// The text of an optional string.
pub open spec fn optional_text(text: Option<String>) -> Option<Seq<char>> {
    match text {
        Some(content) => Some(content@),
        None => None,
    }
}

impl View for DirItem {
    type V = DirItemView;

    open spec fn view(&self) -> DirItemView {
        DirItemView { name: optional_text(self.name), is_dir: self.is_dir }
    }
}

/// Size and time of modification, as the file system gives them.
#[derive(Debug, Clone, Copy)]
pub struct EntryMetadata {
    pub size: u64,
    /// In seconds since the Unix epoch.
    pub modification_time: i64,
}

/// A file or directory that a walk through a folder has come to.
#[derive(Debug)]
pub struct WalkEntry {
    /// The whole path, unless that is not text.
    pub path: Option<String>,
    /// Size and time, unless they could not be read.
    pub metadata: Option<EntryMetadata>,
}

/// What a `WalkEntry` says.
pub struct WalkEntryView {
    pub path: Option<Seq<char>>,
    pub metadata: Option<EntryMetadata>,
}

impl View for WalkEntry {
    type V = WalkEntryView;

    open spec fn view(&self) -> WalkEntryView {
        WalkEntryView { path: optional_text(self.path), metadata: self.metadata }
    }
}

/// The names of the directories among `items`.
pub open spec fn directory_names(items: Seq<DirItemView>) -> Seq<Seq<char>> {
    select(items, |item: DirItemView| item.is_dir, |item: DirItemView| item.name->0)
}

/// The folders that are synchronised: the directories in the root directory, in the order given.
pub fn folder_ids(items: &Vec<DirItem>) -> (ids: Vec<String>)
    requires
        forall|i: int| 0 <= i < items@.len() && (#[trigger] items@[i]).is_dir ==> items@[i].name is Some,
    ensures
        texts(ids@) == directory_names(views(items@)),
{
    let ghost all = views(items@);
    let ghost keep = |item: DirItemView| item.is_dir;
    let ghost name = |item: DirItemView| item.name->0;
    let mut ids: Vec<String> = Vec::new();
    proof {
        lemma_select_nothing(all, keep, name);
        assert(texts(ids@) =~= Seq::empty());
    }
    for i in 0..items.len()
        invariant
            forall|j: int|
                0 <= j < items@.len() && (#[trigger] items@[j]).is_dir ==> items@[j].name is Some,
            all == views(items@),
            keep == (|item: DirItemView| item.is_dir),
            name == (|item: DirItemView| item.name->0),
            texts(ids@) == select(all.take(i as int), keep, name),
    {
        proof {
            lemma_select_step(all, keep, name, i as int);
        }
        if items[i].is_dir {
            match &items[i].name {
                Some(text) => {
                    let ghost before = ids@;
                    ids.push(text.clone());
                    assert(texts(ids@) =~= texts(before).push(text@));
                },
                None => {},
            }
        }
    }
    proof {
        lemma_select_all(all, keep, name);
    }
    ids
}

/// One of the texts to ignore stands in `path`.
pub open spec fn is_ignored(path: Seq<char>, ignore: Seq<Seq<char>>) -> bool {
    exists|i: int| 0 <= i < ignore.len() && occurs_in(#[trigger] ignore[i], path)
}

/// The entries that count: the path is text with nothing to ignore in it, and size and time could
/// be read.
pub open spec fn entry_counts(ignore: Seq<Seq<char>>) -> spec_fn(WalkEntryView) -> bool {
    |entry: WalkEntryView|
        {
            &&& entry.path is Some
            &&& !is_ignored(entry.path->0, ignore)
            &&& entry.metadata is Some
        }
}

/// What an entry below the directory `base` says of a file of the folder.
pub open spec fn entry_file(folder_id: Seq<char>, base: Seq<char>) -> spec_fn(
    WalkEntryView,
) -> FiledataView {
    |entry: WalkEntryView|
        FiledataView {
            folder_id,
            relative_path: relative_to(entry.path->0, base)->0,
            size: entry.metadata->0.size,
            modification_time: entry.metadata->0.modification_time,
            should_delete: false,
        }
}

/// The files of a folder in the order in which the walk came to them.
pub open spec fn walked_files(
    root_dir: Seq<char>,
    folder_id: Seq<char>,
    entries: Seq<WalkEntryView>,
    ignore: Seq<Seq<char>>,
) -> Seq<FiledataView> {
    select(entries, entry_counts(ignore), entry_file(folder_id, joined(root_dir, folder_id)))
}

/// `sorted` is the files of a folder put in the order of their paths.
pub open spec fn lists_folder(
    sorted: Seq<FiledataView>,
    root_dir: Seq<char>,
    folder_id: Seq<char>,
    entries: Seq<WalkEntryView>,
    ignore: Seq<Seq<char>>,
) -> bool {
    &&& sorted.to_multiset() == walked_files(root_dir, folder_id, entries, ignore).to_multiset()
    &&& in_order::<Filedata>(sorted)
}

/// `list` is the files of one folder after the other, those of each in the order of their paths.
pub open spec fn lists_folders(
    list: Seq<FiledataView>,
    root_dir: Seq<char>,
    folder_ids: Seq<Seq<char>>,
    walks: Seq<Seq<WalkEntryView>>,
    ignore: Seq<Seq<char>>,
) -> bool
    decreases folder_ids.len(),
{
    if folder_ids.len() == 0 {
        list.len() == 0
    } else {
        let count = walked_files(root_dir, folder_ids.last(), walks.last(), ignore).len();
        let start = list.len() - count;
        &&& start >= 0
        &&& lists_folder(list.skip(start), root_dir, folder_ids.last(), walks.last(), ignore)
        &&& lists_folders(
            list.take(start),
            root_dir,
            folder_ids.drop_last(),
            walks.drop_last(),
            ignore,
        )
    }
}

/// The entries that count stand below the folder's directory.
pub open spec fn walk_stays_below(
    root_dir: Seq<char>,
    folder_id: Seq<char>,
    entries: Seq<WalkEntryView>,
    ignore: Seq<Seq<char>>,
) -> bool {
    forall|i: int|
        0 <= i < entries.len() && entry_counts(ignore)(#[trigger] entries[i]) ==> relative_to(
            entries[i].path->0,
            joined(root_dir, folder_id),
        ) is Some
}

/// There is a walk for each folder, and each stayed below its directory.
pub open spec fn walks_match(
    root_dir: Seq<char>,
    folder_ids: Seq<Seq<char>>,
    walks: Seq<Seq<WalkEntryView>>,
    ignore: Seq<Seq<char>>,
) -> bool {
    &&& walks.len() == folder_ids.len()
    &&& forall|i: int|
        0 <= i < walks.len() ==> walk_stays_below(
            root_dir,
            folder_ids[i],
            #[trigger] walks[i],
            ignore,
        )
}

/// The views of a list of walks.
pub open spec fn walk_views(walks: Seq<Vec<WalkEntry>>) -> Seq<Seq<WalkEntryView>> {
    walks.map_values(|walk: Vec<WalkEntry>| views(walk@))
}

/// Whether one of the texts to ignore stands in `path`.
pub fn ignores(ignore: &Vec<String>, path: &str) -> (ignored: bool)
    ensures
        ignored == is_ignored(path@, texts(ignore@)),
{
    for i in 0..ignore.len()
        invariant
            forall|j: int| 0 <= j < i ==> !occurs_in(#[trigger] ignore@[j]@, path@),
    {
        if contains_text(path, ignore[i].as_str()) {
            assert(occurs_in(texts(ignore@)[i as int], path@));
            return true;
        }
    }
    proof {
        if is_ignored(path@, texts(ignore@)) {
            let j = choose|j: int|
                0 <= j < ignore@.len() && occurs_in(#[trigger] texts(ignore@)[j], path@);
            assert(!occurs_in(ignore@[j]@, path@));
        }
    }
    false
}

/// The file that an entry of a walk stands for, if it counts.
fn file_of_entry(
    folder_id: &String,
    base: &str,
    entry: &WalkEntry,
    ignore: &Vec<String>,
) -> (file: Option<Filedata>)
    requires
        entry_counts(texts(ignore@))(entry@) ==> relative_to(entry@.path->0, base@) is Some,
    ensures
        file is Some <==> entry_counts(texts(ignore@))(entry@),
        file matches Some(data) ==> data@ == entry_file(folder_id@, base@)(entry@),
{
    match (&entry.path, &entry.metadata) {
        (Some(path), Some(metadata)) => {
            if ignores(ignore, path.as_str()) {
                return None;
            }
            match strip_base(path.as_str(), base) {
                Some(relative_path) => Some(
                    Filedata {
                        folder_id: folder_id.clone(),
                        relative_path,
                        size: metadata.size,
                        modification_time: metadata.modification_time,
                        should_delete: false,
                    },
                ),
                None => None,
            }
        },
        _ => None,
    }
}

/// The files of a folder in the order of their paths.
pub fn list_folder(
    root_dir: &str,
    folder_id: &String,
    entries: &Vec<WalkEntry>,
    ignore: &Vec<String>,
) -> (files: Vec<Filedata>)
    requires
        walk_stays_below(root_dir@, folder_id@, views(entries@), texts(ignore@)),
    ensures
        lists_folder(
            file_views(files@),
            root_dir@,
            folder_id@,
            views(entries@),
            texts(ignore@),
        ),
        files@.len() == walked_files(
            root_dir@,
            folder_id@,
            views(entries@),
            texts(ignore@),
        ).len(),
{
    let base = join_path(root_dir, folder_id.as_str());
    let ghost all = views(entries@);
    let ghost keep = entry_counts(texts(ignore@));
    let ghost make = entry_file(folder_id@, base@);
    let mut files: Vec<Filedata> = Vec::new();
    proof {
        lemma_select_nothing(all, keep, make);
        assert(views(files@) =~= Seq::empty());
    }
    for i in 0..entries.len()
        invariant
            base@ == joined(root_dir@, folder_id@),
            walk_stays_below(root_dir@, folder_id@, all, texts(ignore@)),
            all == views(entries@),
            keep == entry_counts(texts(ignore@)),
            make == entry_file(folder_id@, base@),
            views(files@) == select(all.take(i as int), keep, make),
    {
        assert(all[i as int] == entries@[i as int]@);
        proof {
            lemma_select_step(all, keep, make, i as int);
        }
        match file_of_entry(folder_id, base.as_str(), &entries[i], ignore) {
            Some(file) => {
                let ghost before = files@;
                files.push(file);
                assert(views(files@) =~= views(before).push(file@));
            },
            None => {},
        }
    }
    proof {
        lemma_select_all(all, keep, make);
    }
    let sorted = sort(files);
    assert(file_views(sorted@) =~= views(sorted@));
    assert(views(files@).len() == files@.len());
    sorted
}

/// The files of all the folders, one folder after the other.
pub fn list_folders(
    root_dir: &str,
    folder_ids: &Vec<String>,
    walks: &Vec<Vec<WalkEntry>>,
    ignore: &Vec<String>,
) -> (files: Vec<Filedata>)
    requires
        walks_match(root_dir@, texts(folder_ids@), walk_views(walks@), texts(ignore@)),
    ensures
        lists_folders(
            file_views(files@),
            root_dir@,
            texts(folder_ids@),
            walk_views(walks@),
            texts(ignore@),
        ),
{
    let ghost ids = texts(folder_ids@);
    let ghost entries = walk_views(walks@);
    let ghost unwanted = texts(ignore@);
    let mut files: Vec<Filedata> = Vec::new();
    for i in 0..folder_ids.len()
        invariant
            walks@.len() == folder_ids@.len(),
            ids == texts(folder_ids@),
            entries == walk_views(walks@),
            unwanted == texts(ignore@),
            walks_match(root_dir@, ids, entries, unwanted),
            lists_folders(
                file_views(files@),
                root_dir@,
                ids.take(i as int),
                entries.take(i as int),
                unwanted,
            ),
    {
        assert(entries[i as int] == views(walks@[i as int]@));
        let ghost before = file_views(files@);
        let mut folder = list_folder(root_dir, &folder_ids[i], &walks[i], ignore);
        let ghost added = file_views(folder@);
        files.append(&mut folder);
        proof {
            let after = file_views(files@);
            let start = before.len() as int;
            assert(after =~= before + added);
            assert(after.skip(start) =~= added);
            assert(after.take(start) =~= before);
            assert(ids.take(i as int + 1).drop_last() =~= ids.take(i as int));
            assert(entries.take(i as int + 1).drop_last() =~= entries.take(i as int));
        }
    }
    assert(ids.take(ids.len() as int) =~= ids);
    assert(entries.take(entries.len() as int) =~= entries);
    files
}

/// A file or directory that the walk for a first synchronisation has come to.
#[derive(Debug)]
pub struct FileEntry {
    /// The whole path.
    pub path: String,
    pub is_file: bool,
}

/// What a `FileEntry` says.
pub struct FileEntryView {
    pub path: Seq<char>,
    pub is_file: bool,
}

impl View for FileEntry {
    type V = FileEntryView;

    open spec fn view(&self) -> FileEntryView {
        FileEntryView { path: self.path@, is_file: self.is_file }
    }
}

/// A folder and what the walk through it has come to.
#[derive(Debug)]
pub struct FolderWalk {
    pub folder_id: String,
    pub entries: Vec<FileEntry>,
}

/// What a `FolderWalk` says.
pub struct FolderWalkView {
    pub folder_id: Seq<char>,
    pub entries: Seq<FileEntryView>,
}

impl View for FolderWalk {
    type V = FolderWalkView;

    open spec fn view(&self) -> FolderWalkView {
        FolderWalkView { folder_id: self.folder_id@, entries: views(self.entries@) }
    }
}

/// The files of the walk stand below the folder's directory.
pub open spec fn files_stay_below(root_dir: Seq<char>, folder: FolderWalkView) -> bool {
    forall|i: int|
        0 <= i < folder.entries.len() && (#[trigger] folder.entries[i]).is_file ==> relative_to(
            folder.entries[i].path,
            joined(root_dir, folder.folder_id),
        ) is Some
}

/// The path of an entry below the directory `base`.
pub open spec fn path_below(base: Seq<char>) -> spec_fn(FileEntryView) -> Seq<char> {
    |entry: FileEntryView| relative_to(entry.path, base)->0
}

/// The paths of a folder's files in the order in which the walk came to them.
pub open spec fn file_paths(root_dir: Seq<char>, folder: FolderWalkView) -> Seq<Seq<char>> {
    select(
        folder.entries,
        |entry: FileEntryView| entry.is_file,
        path_below(joined(root_dir, folder.folder_id)),
    )
}

/// `sorted` is the paths of a folder's files in dictionary order.
pub open spec fn lists_paths(
    sorted: Seq<Seq<char>>,
    root_dir: Seq<char>,
    folder: FolderWalkView,
) -> bool {
    &&& sorted.to_multiset() == file_paths(root_dir, folder).to_multiset()
    &&& in_order::<String>(sorted)
}

/// The position of the last folder of that name.
pub open spec fn last_folder(folders: Seq<FolderWalkView>, folder_id: Seq<char>) -> Option<int>
    decreases folders.len(),
{
    if folders.len() == 0 {
        None
    } else if folders.last().folder_id == folder_id {
        Some(folders.len() - 1)
    } else {
        last_folder(folders.drop_last(), folder_id)
    }
}

/// `data` holds the sorted paths of each folder, the last one where two have the same name, and
/// nothing else.
pub open spec fn holds_first_sync_data(
    data: Map<Seq<char>, Vec<String>>,
    root_dir: Seq<char>,
    folders: Seq<FolderWalkView>,
) -> bool {
    forall|id: Seq<char>|
        match #[trigger] last_folder(folders, id) {
            Some(k) => data.contains_key(id) && lists_paths(
                texts(data[id]@),
                root_dir,
                folders[k],
            ),
            None => !data.contains_key(id),
        }
}

/// The paths of a folder's files in dictionary order.
fn list_file_paths(root_dir: &str, folder: &FolderWalk) -> (paths: Vec<String>)
    requires
        files_stay_below(root_dir@, folder@),
    ensures
        lists_paths(texts(paths@), root_dir@, folder@),
{
    let base = join_path(root_dir, folder.folder_id.as_str());
    let ghost all = views(folder.entries@);
    let ghost keep = |entry: FileEntryView| entry.is_file;
    let ghost below = path_below(base@);
    let mut paths: Vec<String> = Vec::new();
    proof {
        lemma_select_nothing(all, keep, below);
        assert(views(paths@) =~= Seq::empty());
    }
    for i in 0..folder.entries.len()
        invariant
            base@ == joined(root_dir@, folder@.folder_id),
            files_stay_below(root_dir@, folder@),
            all == views(folder.entries@),
            keep == (|entry: FileEntryView| entry.is_file),
            below == path_below(base@),
            views(paths@) == select(all.take(i as int), keep, below),
    {
        let entry = &folder.entries[i];
        assert(folder@.entries[i as int] == entry@);
        proof {
            lemma_select_step(all, keep, below, i as int);
        }
        if entry.is_file {
            match strip_base(entry.path.as_str(), base.as_str()) {
                Some(path) => {
                    let ghost before = paths@;
                    paths.push(path);
                    assert(views(paths@) =~= views(before).push(path@));
                },
                None => {},
            }
        }
    }
    proof {
        lemma_select_all(all, keep, below);
    }
    let sorted = sort(paths);
    assert(texts(sorted@) =~= views(sorted@));
    sorted
}

/// What a client learns on its first synchronisation: the files of each folder.
pub fn get_first_sync_data(root_dir: &str, folders: &Vec<FolderWalk>) -> (data: StringHashMap<
    Vec<String>,
>)
    requires
        forall|i: int| 0 <= i < folders@.len() ==> files_stay_below(root_dir@, #[trigger] folders@[i]@),
    ensures
        holds_first_sync_data(data@, root_dir@, views(folders@)),
{
    let ghost all = views(folders@);
    let mut data: StringHashMap<Vec<String>> = StringHashMap::new();
    for i in 0..folders.len()
        invariant
            forall|j: int|
                0 <= j < folders@.len() ==> files_stay_below(root_dir@, #[trigger] folders@[j]@),
            all == views(folders@),
            holds_first_sync_data(data@, root_dir@, all.take(i as int)),
    {
        let ghost before = data@;
        let paths = list_file_paths(root_dir, &folders[i]);
        data.insert(folders[i].folder_id.clone(), paths);
        proof {
            let seen = all.take(i as int);
            let more = all.take(i as int + 1);
            assert(more.drop_last() =~= seen);
            assert(more.last() == folders@[i as int]@);
            assert forall|id: Seq<char>|
                match #[trigger] last_folder(more, id) {
                    Some(k) => data@.contains_key(id) && lists_paths(
                        texts(data@[id]@),
                        root_dir@,
                        more[k],
                    ),
                    None => !data@.contains_key(id),
                } by {
                if id != folders@[i as int].folder_id@ {
                    assert(last_folder(more, id) == last_folder(seen, id));
                    lemma_last_folder(seen, id);
                    if last_folder(seen, id) is Some {
                        let k = last_folder(seen, id)->0;
                        assert(more[k] == seen[k]);
                    }
                }
            }
        }
    }
    assert(all.take(all.len() as int) =~= all);
    data
}

proof fn lemma_last_folder(folders: Seq<FolderWalkView>, folder_id: Seq<char>)
    ensures
        last_folder(folders, folder_id) matches Some(k) ==> 0 <= k < folders.len(),
    decreases folders.len(),
{
    if folders.len() > 0 {
        lemma_last_folder(folders.drop_last(), folder_id);
    }
}

/// A record of the list comes from an entry of the walk through folder `i` that counts.
pub open spec fn comes_from_folder(
    file: FiledataView,
    root_dir: Seq<char>,
    folder_ids: Seq<Seq<char>>,
    walks: Seq<Seq<WalkEntryView>>,
    ignore: Seq<Seq<char>>,
    i: int,
) -> bool {
    &&& 0 <= i < folder_ids.len()
    &&& selected_from(
        walks[i],
        entry_counts(ignore),
        entry_file(folder_ids[i], joined(root_dir, folder_ids[i])),
        file,
    )
}

proof fn lemma_same_elements(sorted: Seq<FiledataView>, unsorted: Seq<FiledataView>)
    requires
        sorted.to_multiset() == unsorted.to_multiset(),
    ensures
        sorted.len() == unsorted.len(),
        forall|file: FiledataView| #[trigger] sorted.contains(file) <==> unsorted.contains(file),
{
    sorted.to_multiset_ensures();
    unsorted.to_multiset_ensures();
    assert forall|file: FiledataView| #[trigger]
        sorted.contains(file) <==> unsorted.contains(file) by {
        vstd::seq_lib::to_multiset_contains(sorted, file);
        vstd::seq_lib::to_multiset_contains(unsorted, file);
    }
}

/// A file is on the list exactly if the walk through one of the folders has come to it, size and
/// time could be read, and its path holds nothing to ignore.
pub proof fn law_listed_files(
    list: Seq<FiledataView>,
    root_dir: Seq<char>,
    folder_ids: Seq<Seq<char>>,
    walks: Seq<Seq<WalkEntryView>>,
    ignore: Seq<Seq<char>>,
    file: FiledataView,
)
    requires
        lists_folders(list, root_dir, folder_ids, walks, ignore),
        walks.len() == folder_ids.len(),
    ensures
        list.contains(file) <==> exists|i: int| #[trigger]
            comes_from_folder(file, root_dir, folder_ids, walks, ignore, i),
    decreases folder_ids.len(),
{
    if folder_ids.len() > 0 {
        let id = folder_ids.last();
        let entries = walks.last();
        let keep = entry_counts(ignore);
        let make = entry_file(id, joined(root_dir, id));
        let found = walked_files(root_dir, id, entries, ignore);
        let start = list.len() - found.len();
        let low = list.take(start);
        let high = list.skip(start);
        let ids = folder_ids.drop_last();
        let rest = walks.drop_last();
        law_listed_files(low, root_dir, ids, rest, ignore, file);
        lemma_select_members(entries, keep, make, file);
        lemma_same_elements(high, found);
        assert(list =~= low + high);
        if list.contains(file) {
            let k = choose|k: int| 0 <= k < list.len() && list[k] == file;
            if k < start {
                assert(low[k] == file);
                let i = choose|i: int| #[trigger]
                    comes_from_folder(file, root_dir, ids, rest, ignore, i);
                assert(comes_from_folder(file, root_dir, folder_ids, walks, ignore, i));
            } else {
                assert(high[k - start] == file);
                assert(high.contains(file));
                assert(comes_from_folder(file, root_dir, folder_ids, walks, ignore, ids.len() as int));
            }
        }
        if exists|i: int| #[trigger]
            comes_from_folder(file, root_dir, folder_ids, walks, ignore, i) {
            let i = choose|i: int| #[trigger]
                comes_from_folder(file, root_dir, folder_ids, walks, ignore, i);
            if i < ids.len() {
                assert(comes_from_folder(file, root_dir, ids, rest, ignore, i));
                let k = choose|k: int| 0 <= k < low.len() && low[k] == file;
                assert(list[k] == file);
            } else {
                assert(high.contains(file));
                let k = choose|k: int| 0 <= k < high.len() && high[k] == file;
                assert(list[start + k] == file);
            }
        }
    }
}

/// The files of one folder are in the order of their paths, wherever they stand on the list.
pub proof fn law_listing_is_in_order(
    list: Seq<FiledataView>,
    root_dir: Seq<char>,
    folder_ids: Seq<Seq<char>>,
    walks: Seq<Seq<WalkEntryView>>,
    ignore: Seq<Seq<char>>,
    k: int,
    l: int,
)
    requires
        lists_folders(list, root_dir, folder_ids, walks, ignore),
        walks.len() == folder_ids.len(),
        folder_ids.no_duplicates(),
        0 <= k < l < list.len(),
        list[k].folder_id == list[l].folder_id,
    ensures
        !path_before(list[l].relative_path, list[k].relative_path),
    decreases folder_ids.len(),
{
    let id = folder_ids.last();
    let found = walked_files(root_dir, id, walks.last(), ignore);
    let start = list.len() - found.len();
    let low = list.take(start);
    let high = list.skip(start);
    let ids = folder_ids.drop_last();
    let rest = walks.drop_last();
    if l < start {
        assert(low[k] == list[k] && low[l] == list[l]);
        law_listing_is_in_order(low, root_dir, ids, rest, ignore, k, l);
    } else if k >= start {
        assert(high[k - start] == list[k] && high[l - start] == list[l]);
    } else {
        lemma_folder_of_last_part(list, root_dir, folder_ids, walks, ignore, l);
        law_folders_come_in_order(low, root_dir, ids, rest, ignore, k, k);
        let i = choose|i: int| 0 <= i < ids.len() && #[trigger] ids[i] == low[k].folder_id;
        assert(folder_ids[i] == folder_ids[ids.len() as int]);
    }
}

/// Entries of a walk that count and name the same path say the same of it, as they do where the walk
/// comes to each path once.
pub open spec fn walk_is_consistent(
    root_dir: Seq<char>,
    folder_id: Seq<char>,
    entries: Seq<WalkEntryView>,
    ignore: Seq<Seq<char>>,
) -> bool {
    let file = entry_file(folder_id, joined(root_dir, folder_id));
    forall|i: int, j: int|
        0 <= i < entries.len() && 0 <= j < entries.len() && entry_counts(ignore)(
            #[trigger] entries[i],
        ) && entry_counts(ignore)(#[trigger] entries[j]) && same_path(
            entries[i].path->0,
            entries[j].path->0,
        ) ==> file(entries[i]) == file(entries[j])
}

/// Each of the walks is consistent.
pub open spec fn walks_are_consistent(
    root_dir: Seq<char>,
    folder_ids: Seq<Seq<char>>,
    walks: Seq<Seq<WalkEntryView>>,
    ignore: Seq<Seq<char>>,
) -> bool {
    forall|i: int|
        0 <= i < walks.len() ==> walk_is_consistent(
            root_dir,
            folder_ids[i],
            #[trigger] walks[i],
            ignore,
        )
}

/// Records of the same path are the same record.
spec fn told_apart(files: Seq<FiledataView>) -> bool {
    forall|a: FiledataView, b: FiledataView| #[trigger]
        files.contains(a) && #[trigger] files.contains(b) && same_path(
            a.relative_path,
            b.relative_path,
        ) ==> a == b
}

proof fn lemma_walk_tells_apart(
    root_dir: Seq<char>,
    folder_id: Seq<char>,
    entries: Seq<WalkEntryView>,
    ignore: Seq<Seq<char>>,
)
    requires
        walk_stays_below(root_dir, folder_id, entries, ignore),
        walk_is_consistent(root_dir, folder_id, entries, ignore),
    ensures
        told_apart(walked_files(root_dir, folder_id, entries, ignore)),
{
    let base = joined(root_dir, folder_id);
    let keep = entry_counts(ignore);
    let make = entry_file(folder_id, base);
    let found = walked_files(root_dir, folder_id, entries, ignore);
    assert forall|a: FiledataView, b: FiledataView| #[trigger]
        found.contains(a) && #[trigger] found.contains(b) && same_path(
            a.relative_path,
            b.relative_path,
        ) implies a == b by {
        lemma_select_members(entries, keep, make, a);
        lemma_select_members(entries, keep, make, b);
        let i = choose|i: int|
            0 <= i < entries.len() && keep(#[trigger] entries[i]) && make(entries[i]) == a;
        let j = choose|j: int|
            0 <= j < entries.len() && keep(#[trigger] entries[j]) && make(entries[j]) == b;
        law_strip_keeps_paths_apart(entries[i].path->0, entries[j].path->0, base);
    }
}

/// Two lists of the same records in order are the same list, if the records can be told apart.
proof fn lemma_order_of_files(one: Seq<FiledataView>, other: Seq<FiledataView>)
    requires
        in_order::<Filedata>(one),
        in_order::<Filedata>(other),
        one.to_multiset() == other.to_multiset(),
        told_apart(one),
    ensures
        one == other,
{
    assert forall|i: int, j: int|
        0 <= i < one.len() && 0 <= j < one.len() && !Filedata::ranks_before(
            #[trigger] one[i],
            #[trigger] one[j],
        ) && !Filedata::ranks_before(one[j], one[i]) implies one[i] == one[j] by {
        law_path_order(one[i].relative_path, one[j].relative_path, one[i].relative_path);
        assert(one.contains(one[i]) && one.contains(one[j]));
    }
    lemma_order_is_unique::<Filedata>(one, other);
}

/// Walks that match and are consistent still are so without the last folder.
proof fn lemma_walks_before(
    root_dir: Seq<char>,
    folder_ids: Seq<Seq<char>>,
    walks: Seq<Seq<WalkEntryView>>,
    ignore: Seq<Seq<char>>,
)
    requires
        folder_ids.len() > 0,
        walks_match(root_dir, folder_ids, walks, ignore),
        walks_are_consistent(root_dir, folder_ids, walks, ignore),
    ensures
        walks_match(root_dir, folder_ids.drop_last(), walks.drop_last(), ignore),
        walks_are_consistent(root_dir, folder_ids.drop_last(), walks.drop_last(), ignore),
        walk_stays_below(root_dir, folder_ids.last(), walks.last(), ignore),
        walk_is_consistent(root_dir, folder_ids.last(), walks.last(), ignore),
{
    let ids = folder_ids.drop_last();
    let rest = walks.drop_last();
    assert forall|i: int| 0 <= i < rest.len() implies walk_stays_below(
        root_dir,
        ids[i],
        #[trigger] rest[i],
        ignore,
    ) && walk_is_consistent(root_dir, ids[i], rest[i], ignore) by {
        assert(rest[i] == walks[i]);
        assert(ids[i] == folder_ids[i]);
    }
    assert(walks[walks.len() - 1] == walks.last());
}

/// The walks determine the listing: where the entries of each that name the same path say the same
/// of it, there is but one list to make of them.
pub proof fn law_listing_is_unique(
    one: Seq<FiledataView>,
    other: Seq<FiledataView>,
    root_dir: Seq<char>,
    folder_ids: Seq<Seq<char>>,
    walks: Seq<Seq<WalkEntryView>>,
    ignore: Seq<Seq<char>>,
)
    requires
        lists_folders(one, root_dir, folder_ids, walks, ignore),
        lists_folders(other, root_dir, folder_ids, walks, ignore),
        walks_match(root_dir, folder_ids, walks, ignore),
        walks_are_consistent(root_dir, folder_ids, walks, ignore),
    ensures
        one == other,
    decreases folder_ids.len(),
{
    if folder_ids.len() == 0 {
        assert(one =~= other);
    } else {
        let id = folder_ids.last();
        let found = walked_files(root_dir, id, walks.last(), ignore);
        let (a, b) = (one.len() - found.len(), other.len() - found.len());
        lemma_walks_before(root_dir, folder_ids, walks, ignore);
        law_listing_is_unique(
            one.take(a),
            other.take(b),
            root_dir,
            folder_ids.drop_last(),
            walks.drop_last(),
            ignore,
        );
        lemma_walk_tells_apart(root_dir, id, walks.last(), ignore);
        lemma_same_elements(one.skip(a), found);
        lemma_order_of_files(one.skip(a), other.skip(b));
        assert(one =~= one.take(a) + one.skip(a));
        assert(other =~= other.take(b) + other.skip(b));
    }
}

/// The walk comes to each path at most once, of those that count.
pub open spec fn walk_visits_once(entries: Seq<WalkEntryView>, ignore: Seq<Seq<char>>) -> bool {
    forall|i: int, j: int|
        0 <= i < j < entries.len() && entry_counts(ignore)(#[trigger] entries[i]) && entry_counts(
            ignore,
        )(#[trigger] entries[j]) ==> !same_path(entries[i].path->0, entries[j].path->0)
}

/// Where a walk comes to each path once, no two records are of the same path.
proof fn lemma_walk_has_distinct_paths(
    root_dir: Seq<char>,
    folder_id: Seq<char>,
    entries: Seq<WalkEntryView>,
    ignore: Seq<Seq<char>>,
)
    requires
        walk_stays_below(root_dir, folder_id, entries, ignore),
        walk_visits_once(entries, ignore),
    ensures
        walked_files(root_dir, folder_id, entries, ignore).no_duplicates(),
        told_apart(walked_files(root_dir, folder_id, entries, ignore)),
{
    let base = joined(root_dir, folder_id);
    let keep = entry_counts(ignore);
    let make = entry_file(folder_id, base);
    let found = walked_files(root_dir, folder_id, entries, ignore);
    assert forall|a: int, b: int| 0 <= a < found.len() && 0 <= b < found.len() && a != b implies
        found[a] != found[b] by {
        let (low, high) = if a < b {
            (a, b)
        } else {
            (b, a)
        };
        let (i, j) = lemma_select_places(entries, keep, make, low, high);
        if found[a] == found[b] {
            law_strip_keeps_paths_apart(entries[i].path->0, entries[j].path->0, base);
        }
    }
    lemma_walk_tells_apart(root_dir, folder_id, entries, ignore);
}

/// Where the walk through each folder comes to each path once, the paths of a folder strictly
/// ascend along the list.
pub proof fn law_listing_ascends(
    list: Seq<FiledataView>,
    root_dir: Seq<char>,
    folder_ids: Seq<Seq<char>>,
    walks: Seq<Seq<WalkEntryView>>,
    ignore: Seq<Seq<char>>,
    k: int,
    l: int,
)
    requires
        lists_folders(list, root_dir, folder_ids, walks, ignore),
        walks_match(root_dir, folder_ids, walks, ignore),
        forall|i: int| 0 <= i < walks.len() ==> walk_visits_once(#[trigger] walks[i], ignore),
        folder_ids.no_duplicates(),
        0 <= k < l < list.len(),
        list[k].folder_id == list[l].folder_id,
    ensures
        path_before(list[k].relative_path, list[l].relative_path),
    decreases folder_ids.len(),
{
    let id = folder_ids.last();
    let found = walked_files(root_dir, id, walks.last(), ignore);
    let start = list.len() - found.len();
    let low = list.take(start);
    let high = list.skip(start);
    let ids = folder_ids.drop_last();
    let rest = walks.drop_last();
    assert(walks_are_consistent(root_dir, folder_ids, walks, ignore)) by {
        assert forall|i: int| 0 <= i < walks.len() implies walk_is_consistent(
            root_dir,
            folder_ids[i],
            #[trigger] walks[i],
            ignore,
        ) by {
            assert(walk_visits_once(walks[i], ignore));
        }
    }
    lemma_walks_before(root_dir, folder_ids, walks, ignore);
    if l < start {
        assert(low[k] == list[k] && low[l] == list[l]);
        assert forall|i: int| 0 <= i < rest.len() implies walk_visits_once(
            #[trigger] rest[i],
            ignore,
        ) by {
            assert(rest[i] == walks[i]);
        }
        law_listing_ascends(low, root_dir, ids, rest, ignore, k, l);
    } else if k >= start {
        let (a, b) = (high[k - start], high[l - start]);
        assert(a == list[k] && b == list[l]);
        assert(walk_visits_once(walks[walks.len() - 1], ignore));
        lemma_walk_has_distinct_paths(root_dir, id, walks.last(), ignore);
        lemma_same_elements(high, found);
        found.lemma_multiset_has_no_duplicates();
        high.lemma_multiset_has_no_duplicates_conv();
        assert(high.contains(a) && high.contains(b));
        assert(found.contains(a) && found.contains(b));
        law_path_order(a.relative_path, b.relative_path, a.relative_path);
    } else {
        lemma_folder_of_last_part(list, root_dir, folder_ids, walks, ignore, l);
        law_folders_come_in_order(low, root_dir, ids, rest, ignore, k, k);
        let i = choose|i: int| 0 <= i < ids.len() && #[trigger] ids[i] == low[k].folder_id;
        assert(folder_ids[i] == folder_ids[ids.len() as int]);
    }
}

/// The last records of a list are those of the last folder.
proof fn lemma_folder_of_last_part(
    list: Seq<FiledataView>,
    root_dir: Seq<char>,
    folder_ids: Seq<Seq<char>>,
    walks: Seq<Seq<WalkEntryView>>,
    ignore: Seq<Seq<char>>,
    l: int,
)
    requires
        folder_ids.len() > 0,
        lists_folders(list, root_dir, folder_ids, walks, ignore),
        list.len() - walked_files(root_dir, folder_ids.last(), walks.last(), ignore).len() <= l
            < list.len(),
    ensures
        list[l].folder_id == folder_ids.last(),
{
    let id = folder_ids.last();
    let found = walked_files(root_dir, id, walks.last(), ignore);
    let start = list.len() - found.len();
    let high = list.skip(start);
    lemma_same_elements(high, found);
    assert(high.contains(high[l - start]));
    assert(found.contains(list[l]));
    lemma_select_members(
        walks.last(),
        entry_counts(ignore),
        entry_file(id, joined(root_dir, id)),
        list[l],
    );
}

/// The folders come along the list in the order in which they are given.
pub proof fn law_folders_come_in_order(
    list: Seq<FiledataView>,
    root_dir: Seq<char>,
    folder_ids: Seq<Seq<char>>,
    walks: Seq<Seq<WalkEntryView>>,
    ignore: Seq<Seq<char>>,
    k: int,
    l: int,
)
    requires
        lists_folders(list, root_dir, folder_ids, walks, ignore),
        walks.len() == folder_ids.len(),
        0 <= k <= l < list.len(),
    ensures
        exists|i: int, j: int|
            0 <= i <= j < folder_ids.len() && #[trigger] folder_ids[i] == list[k].folder_id
                && #[trigger] folder_ids[j] == list[l].folder_id,
    decreases folder_ids.len(),
{
    let found = walked_files(root_dir, folder_ids.last(), walks.last(), ignore);
    let start = list.len() - found.len();
    let low = list.take(start);
    let ids = folder_ids.drop_last();
    let rest = walks.drop_last();
    let last = ids.len() as int;
    if l < start {
        law_folders_come_in_order(low, root_dir, ids, rest, ignore, k, l);
        let (i, j) = choose|i: int, j: int|
            0 <= i <= j < ids.len() && #[trigger] ids[i] == low[k].folder_id && #[trigger] ids[j]
                == low[l].folder_id;
        assert(folder_ids[i] == list[k].folder_id && folder_ids[j] == list[l].folder_id);
    } else {
        lemma_folder_of_last_part(list, root_dir, folder_ids, walks, ignore, l);
        assert(folder_ids[last] == list[l].folder_id);
        if k < start {
            law_folders_come_in_order(low, root_dir, ids, rest, ignore, k, k);
            let (i, j) = choose|i: int, j: int|
                0 <= i <= j < ids.len() && #[trigger] ids[i] == low[k].folder_id
                    && #[trigger] ids[j] == low[k].folder_id;
            assert(folder_ids[i] == list[k].folder_id);
        } else {
            lemma_folder_of_last_part(list, root_dir, folder_ids, walks, ignore, k);
            assert(folder_ids[last] == list[k].folder_id);
        }
    }
}

/// The records whose whole path, as `path_of` gives it, holds nothing to ignore.
pub open spec fn is_kept(
    path_of: spec_fn(FiledataView) -> Seq<char>,
    ignore: Seq<Seq<char>>,
) -> spec_fn(FiledataView) -> bool {
    |file: FiledataView| !is_ignored(path_of(file), ignore)
}

/// `path_of` gives the whole path of the records of each walk.
pub open spec fn gives_paths(
    path_of: spec_fn(FiledataView) -> Seq<char>,
    root_dir: Seq<char>,
    folder_ids: Seq<Seq<char>>,
    walks: Seq<Seq<WalkEntryView>>,
    ignore: Seq<Seq<char>>,
) -> bool {
    forall|i: int, k: int|
        0 <= i < walks.len() && 0 <= k < walks[i].len() && entry_counts(ignore)(
            #[trigger] walks[i][k],
        ) ==> path_of(
            entry_file(folder_ids[i], joined(root_dir, folder_ids[i]))(walks[i][k]),
        ) == walks[i][k].path->0
}

/// A longer list of texts to ignore leaves exactly those files of the listing out whose whole path
/// holds one of them, and keeps the others in their order. `path_of` is any way to get the whole
/// path of a record back.
pub proof fn law_longer_ignore_list_filters_listing(
    list: Seq<FiledataView>,
    shorter: Seq<FiledataView>,
    root_dir: Seq<char>,
    folder_ids: Seq<Seq<char>>,
    walks: Seq<Seq<WalkEntryView>>,
    ignore: Seq<Seq<char>>,
    more: Seq<Seq<char>>,
    path_of: spec_fn(FiledataView) -> Seq<char>,
)
    requires
        lists_folders(list, root_dir, folder_ids, walks, ignore),
        lists_folders(shorter, root_dir, folder_ids, walks, more),
        walks_match(root_dir, folder_ids, walks, ignore),
        walks_are_consistent(root_dir, folder_ids, walks, ignore),
        forall|i: int| 0 <= i < ignore.len() ==> more.contains(#[trigger] ignore[i]),
        gives_paths(path_of, root_dir, folder_ids, walks, ignore),
    ensures
        shorter == list.filter(is_kept(path_of, more)),
    decreases folder_ids.len(),
{
    let kept = is_kept(path_of, more);
    if folder_ids.len() == 0 {
        reveal(Seq::filter);
        assert(shorter =~= list.filter(kept));
    } else {
        let id = folder_ids.last();
        let entries = walks.last();
        let make = entry_file(id, joined(root_dir, id));
        let found = walked_files(root_dir, id, entries, ignore);
        let fewer = walked_files(root_dir, id, entries, more);
        let (a, b) = (list.len() - found.len(), shorter.len() - fewer.len());
        let (low, high) = (list.take(a), list.skip(a));
        let rest = walks.drop_last();
        lemma_walks_before(root_dir, folder_ids, walks, ignore);
        assert(gives_paths(path_of, root_dir, folder_ids.drop_last(), rest, ignore)) by {
            assert forall|i: int, k: int|
                0 <= i < rest.len() && 0 <= k < rest[i].len() && entry_counts(ignore)(
                    #[trigger] rest[i][k],
                ) implies path_of(
                entry_file(folder_ids[i], joined(root_dir, folder_ids[i]))(rest[i][k]),
            ) == rest[i][k].path->0 by {
                assert(rest[i] == walks[i]);
                assert(entry_counts(ignore)(walks[i][k]));
            }
        }
        law_longer_ignore_list_filters_listing(
            low,
            shorter.take(b),
            root_dir,
            folder_ids.drop_last(),
            rest,
            ignore,
            more,
            path_of,
        );
        assert forall|k: int| 0 <= k < entries.len() implies (entry_counts(more)(
            #[trigger] entries[k],
        ) <==> entry_counts(ignore)(entries[k]) && kept(make(entries[k]))) by {
            assert(entries[k] == walks[walks.len() - 1][k]);
            if entry_counts(more)(entries[k]) && is_ignored(entries[k].path->0, ignore) {
                let i = choose|i: int|
                    0 <= i < ignore.len() && occurs_in(#[trigger] ignore[i], entries[k].path->0);
                let j = choose|j: int| 0 <= j < more.len() && more[j] == ignore[i];
                assert(occurs_in(more[j], entries[k].path->0));
            }
        }
        lemma_select_fewer(entries, entry_counts(ignore), entry_counts(more), make, kept);
        lemma_filter_multiset(high, kept);
        lemma_filter_multiset(found, kept);
        lemma_filter_keeps_order::<Filedata>(high, kept);
        lemma_walk_tells_apart(root_dir, id, entries, ignore);
        lemma_same_elements(high, found);
        assert(told_apart(high.filter(kept))) by {
            assert forall|file: FiledataView| #[trigger] high.filter(kept).contains(file) implies
                found.contains(file) by {
                high.lemma_filter_contains_rev(kept, file);
            }
        }
        lemma_order_of_files(high.filter(kept), shorter.skip(b));
        Seq::filter_distributes_over_add(low, high, kept);
        assert(list =~= low + high);
        assert(shorter =~= shorter.take(b) + shorter.skip(b));
    }
}

/// Where the walk through a folder comes to a record: the folder's directory itself, or the path
/// joined onto it.
pub open spec fn walked_path(root_dir: Seq<char>) -> spec_fn(FiledataView) -> Seq<char> {
    |file: FiledataView|
        if file.relative_path.len() == 0 {
            joined(root_dir, file.folder_id)
        } else {
            joined(joined(root_dir, file.folder_id), file.relative_path)
        }
}

/// An empty text stands in every path, so that ignoring it leaves nothing to list.
pub proof fn law_empty_text_ignores_everything(
    list: Seq<FiledataView>,
    root_dir: Seq<char>,
    folder_ids: Seq<Seq<char>>,
    walks: Seq<Seq<WalkEntryView>>,
    ignore: Seq<Seq<char>>,
)
    requires
        lists_folders(list, root_dir, folder_ids, walks, ignore),
        walks.len() == folder_ids.len(),
        ignore.contains(Seq::empty()),
    ensures
        list == Seq::<FiledataView>::empty(),
{
    if list.len() > 0 {
        let file = list[0];
        assert(list.contains(file));
        law_listed_files(list, root_dir, folder_ids, walks, ignore, file);
        let i = choose|i: int| #[trigger]
            comes_from_folder(file, root_dir, folder_ids, walks, ignore, i);
        let keep = entry_counts(ignore);
        let make = entry_file(folder_ids[i], joined(root_dir, folder_ids[i]));
        let k = choose|k: int|
            0 <= k < walks[i].len() && keep(#[trigger] walks[i][k]) && make(walks[i][k]) == file;
        let path = walks[i][k].path->0;
        let j = choose|j: int| 0 <= j < ignore.len() && ignore[j] == Seq::<char>::empty();
        assert(path.subrange(0, 0) =~= Seq::empty());
        assert(occurs_at(ignore[j], path, 0));
        assert(occurs_in(ignore[j], path));
    }
    assert(list =~= Seq::empty());
}

/// A path is to be ignored exactly if one of the texts to ignore stands in it.
pub proof fn law_is_ignored(path: Seq<char>, ignore: Seq<Seq<char>>)
    ensures
        is_ignored(path, ignore) <==> exists|i: int|
            0 <= i < ignore.len() && occurs_in(#[trigger] ignore[i], path),
{
}

/// One more item in the root directory adds its name behind the others exactly if it is a directory.
pub proof fn law_directories_are_named_in_turn(items: Seq<DirItemView>, item: DirItemView)
    ensures
        directory_names(Seq::empty()) == Seq::<Seq<char>>::empty(),
        directory_names(items.push(item)) == directory_names(items) + if item.is_dir {
            seq![item.name->0]
        } else {
            Seq::empty()
        },
{
    let keep = |item: DirItemView| item.is_dir;
    let name = |item: DirItemView| item.name->0;
    let more = items.push(item);
    let count = items.len() as int;
    let none = Seq::<DirItemView>::empty();
    lemma_select_nothing(none, keep, name);
    assert(none.take(0) =~= none);
    lemma_select_step(more, keep, name, count);
    lemma_select_all(more, keep, name);
    assert(more.take(count) =~= items);
    assert(more[count] == item);
    assert(directory_names(more) =~= directory_names(items) + if item.is_dir {
        seq![item.name->0]
    } else {
        Seq::empty()
    });
}

/// One more entry of a walk adds a record exactly if its path is text, holds nothing to ignore, and
/// its size and time could be read. The record has the folder, the path below the folder's
/// directory, and that size and time, and is not marked as deleted.
pub proof fn law_entries_are_recorded_in_turn(
    root_dir: Seq<char>,
    folder_id: Seq<char>,
    entries: Seq<WalkEntryView>,
    ignore: Seq<Seq<char>>,
    entry: WalkEntryView,
)
    ensures
        walked_files(root_dir, folder_id, Seq::empty(), ignore) == Seq::<FiledataView>::empty(),
        walked_files(root_dir, folder_id, entries.push(entry), ignore) == walked_files(
            root_dir,
            folder_id,
            entries,
            ignore,
        ) + match (entry.path, entry.metadata) {
            (Some(path), Some(metadata)) => if (exists|i: int|
                0 <= i < ignore.len() && occurs_in(#[trigger] ignore[i], path)) {
                Seq::empty()
            } else {
                seq![
                    FiledataView {
                        folder_id,
                        relative_path: relative_to(path, joined(root_dir, folder_id))->0,
                        size: metadata.size,
                        modification_time: metadata.modification_time,
                        should_delete: false,
                    },
                ]
            },
            _ => Seq::empty(),
        },
{
    let keep = entry_counts(ignore);
    let make = entry_file(folder_id, joined(root_dir, folder_id));
    let more = entries.push(entry);
    let count = entries.len() as int;
    let none = Seq::<WalkEntryView>::empty();
    lemma_select_nothing(none, keep, make);
    assert(none.take(0) =~= none);
    lemma_select_step(more, keep, make, count);
    lemma_select_all(more, keep, make);
    assert(more.take(count) =~= entries);
    assert(more[count] == entry);
    let before = walked_files(root_dir, folder_id, entries, ignore);
    if keep(entry) {
        assert(before.push(make(entry)) =~= before + seq![make(entry)]);
    } else {
        assert(before + Seq::<FiledataView>::empty() =~= before);
    }
}

/// The listing of one more folder is that of the others and, behind it, the records of the folder,
/// each as often as the walk came to it, none of them behind one whose path comes later.
pub proof fn law_folders_are_listed_in_turn(
    list: Seq<FiledataView>,
    root_dir: Seq<char>,
    folder_ids: Seq<Seq<char>>,
    walks: Seq<Seq<WalkEntryView>>,
    ignore: Seq<Seq<char>>,
    folder_id: Seq<char>,
    entries: Seq<WalkEntryView>,
)
    requires
        lists_folders(list, root_dir, folder_ids.push(folder_id), walks.push(entries), ignore),
    ensures
        ({
            let found = walked_files(root_dir, folder_id, entries, ignore);
            let start = list.len() - found.len();
            &&& 0 <= start <= list.len()
            &&& lists_folders(list.take(start), root_dir, folder_ids, walks, ignore)
            &&& list.skip(start).to_multiset() == found.to_multiset()
            &&& forall|k: int, l: int|
                start <= k < l < list.len() ==> !path_before(
                    (#[trigger] list[l]).relative_path,
                    (#[trigger] list[k]).relative_path,
                )
        }),
{
    let found = walked_files(root_dir, folder_id, entries, ignore);
    let start = list.len() - found.len();
    assert(folder_ids.push(folder_id).drop_last() =~= folder_ids);
    assert(walks.push(entries).drop_last() =~= walks);
    let high = list.skip(start);
    assert forall|k: int, l: int| start <= k < l < list.len() implies !path_before(
        (#[trigger] list[l]).relative_path,
        (#[trigger] list[k]).relative_path,
    ) by {
        assert(!Filedata::ranks_before(high[l - start], high[k - start]));
    }
}

/// Without folders there is nothing to list.
pub proof fn law_no_folders_list_nothing(
    list: Seq<FiledataView>,
    root_dir: Seq<char>,
    walks: Seq<Seq<WalkEntryView>>,
    ignore: Seq<Seq<char>>,
)
    requires
        lists_folders(list, root_dir, Seq::empty(), walks, ignore),
    ensures
        list == Seq::<FiledataView>::empty(),
{
    assert(list =~= Seq::empty());
}

/// `file` is the record of the entry at `k` of the walk through folder `i`: it has the folder's name,
/// the path below the folder's directory, and the size and time of the entry.
pub open spec fn records(
    file: FiledataView,
    root_dir: Seq<char>,
    folder_ids: Seq<Seq<char>>,
    walks: Seq<Seq<WalkEntryView>>,
    i: int,
    k: int,
) -> bool {
    &&& 0 <= i < walks.len()
    &&& 0 <= k < walks[i].len()
    &&& walks[i][k].path is Some
    &&& walks[i][k].metadata is Some
    &&& file.folder_id == folder_ids[i]
    &&& relative_to(walks[i][k].path->0, joined(root_dir, folder_ids[i])) == Some(
        file.relative_path,
    )
    &&& file.size == walks[i][k].metadata->0.size
    &&& file.modification_time == walks[i][k].metadata->0.modification_time
    &&& !file.should_delete
}

/// Every record of a listing is that of an entry of one of the walks, with its size and its time, and
/// holds none of the texts to ignore in its path.
pub proof fn law_listed_records_are_of_entries(
    list: Seq<FiledataView>,
    root_dir: Seq<char>,
    folder_ids: Seq<Seq<char>>,
    walks: Seq<Seq<WalkEntryView>>,
    ignore: Seq<Seq<char>>,
    n: int,
)
    requires
        lists_folders(list, root_dir, folder_ids, walks, ignore),
        walks_match(root_dir, folder_ids, walks, ignore),
        0 <= n < list.len(),
    ensures
        exists|i: int, k: int|
            {
                &&& #[trigger] records(list[n], root_dir, folder_ids, walks, i, k)
                &&& forall|j: int|
                    0 <= j < ignore.len() ==> !occurs_in(
                        #[trigger] ignore[j],
                        walks[i][k].path->0,
                    )
            },
{
    let file = list[n];
    assert(list.contains(file));
    law_listed_files(list, root_dir, folder_ids, walks, ignore, file);
    let i = choose|i: int| #[trigger]
        comes_from_folder(file, root_dir, folder_ids, walks, ignore, i);
    let keep = entry_counts(ignore);
    let make = entry_file(folder_ids[i], joined(root_dir, folder_ids[i]));
    let k = choose|k: int|
        0 <= k < walks[i].len() && keep(#[trigger] walks[i][k]) && make(walks[i][k]) == file;
    assert(walk_stays_below(root_dir, folder_ids[i], walks[i], ignore));
    assert(entry_counts(ignore)(walks[i][k]));
    assert(records(file, root_dir, folder_ids, walks, i, k));
}

/// Every entry of a walk whose path is text with nothing to ignore in it, and whose size and time
/// could be read, has its record on the listing.
pub proof fn law_entries_are_listed(
    list: Seq<FiledataView>,
    root_dir: Seq<char>,
    folder_ids: Seq<Seq<char>>,
    walks: Seq<Seq<WalkEntryView>>,
    ignore: Seq<Seq<char>>,
    i: int,
    k: int,
)
    requires
        lists_folders(list, root_dir, folder_ids, walks, ignore),
        walks_match(root_dir, folder_ids, walks, ignore),
        0 <= i < walks.len(),
        0 <= k < walks[i].len(),
        walks[i][k].path is Some,
        walks[i][k].metadata is Some,
        forall|j: int|
            0 <= j < ignore.len() ==> !occurs_in(#[trigger] ignore[j], walks[i][k].path->0),
    ensures
        exists|n: int|
            0 <= n < list.len() && records(#[trigger] list[n], root_dir, folder_ids, walks, i, k),
{
    let make = entry_file(folder_ids[i], joined(root_dir, folder_ids[i]));
    let file = make(walks[i][k]);
    assert(entry_counts(ignore)(walks[i][k]));
    assert(walk_stays_below(root_dir, folder_ids[i], walks[i], ignore));
    assert(comes_from_folder(file, root_dir, folder_ids, walks, ignore, i));
    law_listed_files(list, root_dir, folder_ids, walks, ignore, file);
    let n = choose|n: int| 0 <= n < list.len() && list[n] == file;
    assert(records(list[n], root_dir, folder_ids, walks, i, k));
}

proof fn lemma_last_folder_is(folders: Seq<FolderWalkView>, folder_id: Seq<char>, k: int)
    requires
        0 <= k < folders.len(),
        folders[k].folder_id == folder_id,
        forall|l: int| k < l < folders.len() ==> (#[trigger] folders[l]).folder_id != folder_id,
    ensures
        last_folder(folders, folder_id) == Some(k),
    decreases folders.len(),
{
    if k < folders.len() - 1 {
        assert(folders[folders.len() - 1].folder_id != folder_id);
        let rest = folders.drop_last();
        assert forall|l: int| k < l < rest.len() implies (
        #[trigger] rest[l]).folder_id != folder_id by {
            assert(rest[l] == folders[l]);
        }
        lemma_last_folder_is(rest, folder_id, k);
    }
}

proof fn lemma_no_last_folder(folders: Seq<FolderWalkView>, folder_id: Seq<char>)
    requires
        forall|l: int| 0 <= l < folders.len() ==> (#[trigger] folders[l]).folder_id != folder_id,
    ensures
        last_folder(folders, folder_id) is None,
    decreases folders.len(),
{
    if folders.len() > 0 {
        assert(folders[folders.len() - 1].folder_id != folder_id);
        let rest = folders.drop_last();
        assert forall|l: int| 0 <= l < rest.len() implies (
        #[trigger] rest[l]).folder_id != folder_id by {
            assert(rest[l] == folders[l]);
        }
        lemma_no_last_folder(rest, folder_id);
    }
}

/// One more entry of a walk for a first synchronisation adds its path below the folder's directory
/// behind the others exactly if it is a file.
pub proof fn law_paths_are_taken_in_turn(
    root_dir: Seq<char>,
    folder_id: Seq<char>,
    entries: Seq<FileEntryView>,
    entry: FileEntryView,
)
    ensures
        file_paths(root_dir, FolderWalkView { folder_id, entries: Seq::empty() }) == Seq::<
            Seq<char>,
        >::empty(),
        file_paths(root_dir, FolderWalkView { folder_id, entries: entries.push(entry) })
            == file_paths(root_dir, FolderWalkView { folder_id, entries }) + if entry.is_file {
            seq![relative_to(entry.path, joined(root_dir, folder_id))->0]
        } else {
            Seq::empty()
        },
{
    let keep = |entry: FileEntryView| entry.is_file;
    let below = path_below(joined(root_dir, folder_id));
    let more = entries.push(entry);
    let count = entries.len() as int;
    let none = Seq::<FileEntryView>::empty();
    lemma_select_nothing(none, keep, below);
    assert(none.take(0) =~= none);
    lemma_select_step(more, keep, below, count);
    lemma_select_all(more, keep, below);
    assert(more.take(count) =~= entries);
    assert(more[count] == entry);
    let before = file_paths(root_dir, FolderWalkView { folder_id, entries });
    if entry.is_file {
        assert(before.push(below(entry)) =~= before + seq![below(entry)]);
    } else {
        assert(before + Seq::<Seq<char>>::empty() =~= before);
    }
}

/// How many of the entries are files.
pub open spec fn files_among(entries: Seq<FileEntryView>) -> nat
    decreases entries.len(),
{
    if entries.len() == 0 {
        0
    } else {
        files_among(entries.drop_last()) + if entries.last().is_file {
            1nat
        } else {
            0nat
        }
    }
}

proof fn lemma_file_paths(root_dir: Seq<char>, folder: FolderWalkView)
    ensures
        file_paths(root_dir, folder).len() == files_among(folder.entries),
        forall|i: int|
            0 <= i < folder.entries.len() && (#[trigger] folder.entries[i]).is_file ==> file_paths(
                root_dir,
                folder,
            ).contains(
                relative_to(folder.entries[i].path, joined(root_dir, folder.folder_id))->0,
            ),
        forall|path: Seq<char>| #[trigger]
            file_paths(root_dir, folder).contains(path) ==> exists|i: int|
                0 <= i < folder.entries.len() && (#[trigger] folder.entries[i]).is_file && path
                    == relative_to(
                    folder.entries[i].path,
                    joined(root_dir, folder.folder_id),
                )->0,
    decreases folder.entries.len(),
{
    let base = joined(root_dir, folder.folder_id);
    let keep = |entry: FileEntryView| entry.is_file;
    let below = path_below(base);
    let entries = folder.entries;
    let all = file_paths(root_dir, folder);
    if entries.len() > 0 {
        let rest = FolderWalkView { folder_id: folder.folder_id, entries: entries.drop_last() };
        lemma_file_paths(root_dir, rest);
        law_paths_are_taken_in_turn(root_dir, folder.folder_id, rest.entries, entries.last());
        assert(rest.entries.push(entries.last()) =~= entries);
        assert(folder == FolderWalkView { folder_id: folder.folder_id, entries });
    } else {
        law_paths_are_taken_in_turn(root_dir, folder.folder_id, entries, arbitrary());
        assert(entries =~= Seq::empty());
        assert(folder == FolderWalkView { folder_id: folder.folder_id, entries: Seq::empty() });
    }
    assert forall|i: int| 0 <= i < entries.len() && (#[trigger] entries[i]).is_file implies all.contains(
        relative_to(entries[i].path, base)->0,
    ) by {
        lemma_select_members(entries, keep, below, below(entries[i]));
        assert(keep(entries[i]) && below(entries[i]) == relative_to(entries[i].path, base)->0);
    }
    assert forall|path: Seq<char>| #[trigger] all.contains(path) implies exists|i: int|
        0 <= i < entries.len() && (#[trigger] entries[i]).is_file && path == relative_to(
            entries[i].path,
            base,
        )->0 by {
        lemma_select_members(entries, keep, below, path);
        let i = choose|i: int|
            0 <= i < entries.len() && keep(#[trigger] entries[i]) && below(entries[i]) == path;
        assert(entries[i].is_file);
    }
}

/// One of the entries is a file with this path below `base`.
pub open spec fn is_path_of_file(
    path: Seq<char>,
    entries: Seq<FileEntryView>,
    base: Seq<char>,
) -> bool {
    exists|i: int|
        0 <= i < entries.len() && (#[trigger] entries[i]).is_file && relative_to(
            entries[i].path,
            base,
        ) == Some(path)
}

/// A client is told of every file of a folder: the list under the folder's name has the path of each
/// file that the walk came to, and no others, as many as there are files, in dictionary order. Of
/// two folders of the same name the last one counts.
pub proof fn law_first_sync_data_has_every_file(
    data: Map<Seq<char>, Vec<String>>,
    root_dir: Seq<char>,
    folders: Seq<FolderWalkView>,
    k: int,
)
    requires
        holds_first_sync_data(data, root_dir, folders),
        0 <= k < folders.len(),
        files_stay_below(root_dir, folders[k]),
        forall|l: int|
            k < l < folders.len() ==> (#[trigger] folders[l]).folder_id != folders[k].folder_id,
    ensures
        data.contains_key(folders[k].folder_id),
        ({
            let list = data[folders[k].folder_id]@;
            let entries = folders[k].entries;
            let base = joined(root_dir, folders[k].folder_id);
            &&& list.len() == files_among(entries)
            &&& texts(list).to_multiset() == file_paths(root_dir, folders[k]).to_multiset()
            &&& forall|i: int|
                0 <= i < entries.len() && (#[trigger] entries[i]).is_file ==> exists|n: int|
                    0 <= n < list.len() && relative_to(entries[i].path, base) == Some(
                        #[trigger] list[n]@,
                    )
            &&& forall|n: int|
                0 <= n < list.len() ==> is_path_of_file(#[trigger] list[n]@, entries, base)
            &&& forall|m: int, n: int|
                0 <= m < n < list.len() ==> !text_before(
                    #[trigger] list[n]@,
                    #[trigger] list[m]@,
                )
        }),
{
    let folder = folders[k];
    let id = folder.folder_id;
    let base = joined(root_dir, id);
    let entries = folder.entries;
    lemma_last_folder_is(folders, id, k);
    assert(last_folder(folders, id) == Some(k));
    let list = data[id]@;
    let sorted = texts(list);
    let found = file_paths(root_dir, folder);
    assert(lists_paths(sorted, root_dir, folder));
    lemma_file_paths(root_dir, folder);
    sorted.to_multiset_ensures();
    found.to_multiset_ensures();
    assert forall|i: int| 0 <= i < entries.len() && (#[trigger] entries[i]).is_file implies exists|
        n: int,
    |
        0 <= n < list.len() && relative_to(entries[i].path, base) == Some(#[trigger] list[n]@) by {
        let path = relative_to(entries[i].path, base)->0;
        vstd::seq_lib::to_multiset_contains(sorted, path);
        vstd::seq_lib::to_multiset_contains(found, path);
        let n = choose|n: int| 0 <= n < sorted.len() && sorted[n] == path;
        assert(list[n]@ == path);
    }
    assert forall|n: int| 0 <= n < list.len() implies is_path_of_file(
        #[trigger] list[n]@,
        entries,
        base,
    ) by {
        let path = list[n]@;
        assert(sorted[n] == path);
        assert(sorted.contains(path));
        vstd::seq_lib::to_multiset_contains(sorted, path);
        vstd::seq_lib::to_multiset_contains(found, path);
        assert(found.contains(path));
        let i = choose|i: int|
            0 <= i < entries.len() && (#[trigger] entries[i]).is_file && path == relative_to(
                entries[i].path,
                base,
            )->0;
        assert(relative_to(entries[i].path, base) is Some);
    }
    assert forall|m: int, n: int| 0 <= m < n < list.len() implies !text_before(
        #[trigger] list[n]@,
        #[trigger] list[m]@,
    ) by {
        assert(sorted[m] == list[m]@ && sorted[n] == list[n]@);
        assert(!String::ranks_before(sorted[n], sorted[m]));
    }
}

/// A client is told of no folder that was not walked through.
pub proof fn law_first_sync_data_has_no_other_folder(
    data: Map<Seq<char>, Vec<String>>,
    root_dir: Seq<char>,
    folders: Seq<FolderWalkView>,
    id: Seq<char>,
)
    requires
        holds_first_sync_data(data, root_dir, folders),
        data.contains_key(id),
    ensures
        exists|k: int| 0 <= k < folders.len() && (#[trigger] folders[k]).folder_id == id,
{
    if forall|k: int| 0 <= k < folders.len() ==> (#[trigger] folders[k]).folder_id != id {
        lemma_no_last_folder(folders, id);
        assert(last_folder(folders, id) is None);
    }
}

/// What was found on disk says what stands in it.
pub proof fn law_findings_say_what_they_hold(
    item: DirItem,
    entry: WalkEntry,
    file: FileEntry,
    folder: FolderWalk,
    walks: Seq<Vec<WalkEntry>>,
)
    ensures
        item@.is_dir == item.is_dir,
        item.name matches Some(name) ==> item@.name == Some(name@),
        item.name is None ==> item@.name is None,
        entry@.metadata == entry.metadata,
        entry.path matches Some(path) ==> entry@.path == Some(path@),
        entry.path is None ==> entry@.path is None,
        file@.path == file.path@,
        file@.is_file == file.is_file,
        folder@.folder_id == folder.folder_id@,
        folder@.entries.len() == folder.entries@.len(),
        forall|i: int|
            0 <= i < folder.entries@.len() ==> #[trigger] folder@.entries[i] == folder.entries@[i]@,
        walk_views(walks).len() == walks.len(),
        forall|i: int, k: int|
            0 <= i < walks.len() && 0 <= k < walks[i]@.len() ==> #[trigger] walk_views(walks)[i][k]
                == walks[i]@[k]@,
        forall|i: int|
            0 <= i < walks.len() ==> (#[trigger] walk_views(walks)[i]).len() == walks[i]@.len(),
{
}

/// Walks match their folders exactly if there is one for each, and whatever counts in it stands below
/// the folder's directory.
pub proof fn law_when_walks_match(
    root_dir: Seq<char>,
    folder_ids: Seq<Seq<char>>,
    walks: Seq<Seq<WalkEntryView>>,
    ignore: Seq<Seq<char>>,
)
    requires
        walks.len() == folder_ids.len(),
        forall|i: int, k: int|
            0 <= i < walks.len() && 0 <= k < walks[i].len() ==> {
                let entry = #[trigger] walks[i][k];
                ||| entry.path is None
                ||| entry.metadata is None
                ||| exists|j: int|
                    0 <= j < ignore.len() && occurs_in(#[trigger] ignore[j], entry.path->0)
                ||| relative_to(entry.path->0, joined(root_dir, folder_ids[i])) is Some
            },
    ensures
        walks_match(root_dir, folder_ids, walks, ignore),
{
    assert forall|i: int| 0 <= i < walks.len() implies walk_stays_below(
        root_dir,
        folder_ids[i],
        #[trigger] walks[i],
        ignore,
    ) by {
        assert forall|k: int|
            0 <= k < walks[i].len() && entry_counts(ignore)(
                #[trigger] walks[i][k],
            ) implies relative_to(walks[i][k].path->0, joined(root_dir, folder_ids[i])) is Some by {
            let entry = walks[i][k];
            if relative_to(entry.path->0, joined(root_dir, folder_ids[i])) is None {
                let j = choose|j: int|
                    0 <= j < ignore.len() && occurs_in(#[trigger] ignore[j], entry.path->0);
                assert(is_ignored(entry.path->0, ignore));
            }
        }
    }
}

/// The files of a walk stay below the folder's directory, if something is left of the path of each.
pub proof fn law_when_files_stay_below(root_dir: Seq<char>, folder: FolderWalkView)
    requires
        forall|i: int|
            0 <= i < folder.entries.len() ==> !(#[trigger] folder.entries[i]).is_file
                || relative_to(
                folder.entries[i].path,
                joined(root_dir, folder.folder_id),
            ) is Some,
    ensures
        files_stay_below(root_dir, folder),
{
}

} // verus!
