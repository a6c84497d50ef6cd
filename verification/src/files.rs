//! What is known of a file, and when two records speak of the same file.

use vstd::prelude::*;

use crate::order::Ranked;
use crate::path::{
    components, is_same_path, law_path_order, path_before, path_comes_before, same_path,
};

verus! {

/// A file in one of the synchronised folders.
#[derive(Debug)]
pub struct Filedata {
    /// The unique ID of the folder which contains this file
    pub folder_id: String,
    /// The relative path of this file from the root of its base folder
    pub relative_path: String,
    /// The total size of this file in bytes
    pub size: u64,
    /// The last modification of the file in seconds since the Unix epoch
    pub modification_time: i64,
    /// Whether to delete the file on the remote server
    pub should_delete: bool,
}

/// What a `Filedata` says.
pub struct FiledataView {
    pub folder_id: Seq<char>,
    pub relative_path: Seq<char>,
    pub size: u64,
    pub modification_time: i64,
    pub should_delete: bool,
}

impl View for Filedata {
    type V = FiledataView;

    open spec fn view(&self) -> FiledataView {
        FiledataView {
            folder_id: self.folder_id@,
            relative_path: self.relative_path@,
            size: self.size,
            modification_time: self.modification_time,
            should_delete: self.should_delete,
        }
    }
}

impl Clone for Filedata {
    fn clone(&self) -> (copy: Self)
        ensures
            copy@ == self@,
    {
        Filedata {
            folder_id: self.folder_id.clone(),
            relative_path: self.relative_path.clone(),
            size: self.size,
            modification_time: self.modification_time,
            should_delete: self.should_delete,
        }
    }
}

/// Two records of the same file: the same folder, and the same path in it.
pub open spec fn same_file(a: FiledataView, b: FiledataView) -> bool {
    &&& a.folder_id == b.folder_id
    &&& same_path(a.relative_path, b.relative_path)
}

/// The position of the first record in `list` of the same file as `file`.
pub open spec fn find_file(list: Seq<FiledataView>, file: FiledataView) -> Option<int>
    decreases list.len(),
{
    if list.len() == 0 {
        None
    } else {
        match find_file(list.drop_last(), file) {
            Some(position) => Some(position),
            None => if same_file(list.last(), file) {
                Some(list.len() - 1)
            } else {
                None
            },
        }
    }
}

/// `list` has a record of the same file as `file`.
pub open spec fn has_file(list: Seq<FiledataView>, file: FiledataView) -> bool {
    exists|i: int| 0 <= i < list.len() && same_file(#[trigger] list[i], file)
}

/// Looking for a file finds the first record of it, and finds one exactly if there is one.
pub proof fn law_find_file(list: Seq<FiledataView>, file: FiledataView)
    ensures
        find_file(list, file) is Some <==> has_file(list, file),
        find_file(list, file) matches Some(position) ==> {
            &&& 0 <= position < list.len()
            &&& same_file(list[position], file)
            &&& forall|i: int| 0 <= i < position ==> !same_file(#[trigger] list[i], file)
        },
    decreases list.len(),
{
    if list.len() > 0 {
        let rest = list.drop_last();
        law_find_file(rest, file);
        assert forall|i: int| 0 <= i < rest.len() implies rest[i] == list[i] by {}
        if has_file(list, file) && !has_file(rest, file) {
            let i = choose|i: int| 0 <= i < list.len() && same_file(#[trigger] list[i], file);
            if i < rest.len() {
                assert(same_file(rest[i], file));
            }
        }
        if has_file(rest, file) {
            let i = choose|i: int| 0 <= i < rest.len() && same_file(#[trigger] rest[i], file);
            assert(same_file(list[i], file));
        }
        if find_file(list, file) is Some {
            let position = find_file(list, file)->0;
            assert forall|i: int| 0 <= i < position implies !same_file(#[trigger] list[i], file) by {
                assert(rest[i] == list[i]);
            }
        }
    }
}

/// The views of a list of files.
pub open spec fn file_views(list: Seq<Filedata>) -> Seq<FiledataView> {
    list.map_values(|file: Filedata| file@)
}

/// Whether two records are of the same file.
pub fn is_same_file(a: &Filedata, b: &Filedata) -> (same: bool)
    ensures
        same == same_file(a@, b@),
{
    a.folder_id == b.folder_id && is_same_path(a.relative_path.as_str(), b.relative_path.as_str())
}

/// The position of the first record in `list` of the same file as `file`.
pub fn position_of_file(list: &Vec<Filedata>, file: &Filedata) -> (position: Option<usize>)
    ensures
        match find_file(file_views(list@), file@) {
            Some(found) => position is Some && position->0 == found,
            None => position is None,
        },
        position matches Some(found) ==> found < list@.len(),
{
    let ghost all = file_views(list@);
    assert(all.take(0) =~= Seq::empty());
    for i in 0..list.len()
        invariant
            all == file_views(list@),
            find_file(all.take(i as int), file@) is None,
    {
        proof {
            assert(all.take(i as int + 1).drop_last() =~= all.take(i as int));
            assert(all.take(i as int + 1).last() == list@[i as int]@);
        }
        if is_same_file(&list[i], file) {
            proof {
                law_find_file(all, file@);
                law_find_file(all.take(i as int + 1), file@);
                assert(same_file(all[i as int], file@));
                let found = find_file(all, file@)->0;
                if found < i {
                    assert(same_file(all.take(i as int + 1)[found], file@));
                }
            }
            return Some(i);
        }
    }
    assert(all.take(all.len() as int) =~= all);
    None
}

/// Whether `list` has a record of the same file as `file`.
pub fn list_has_file(list: &Vec<Filedata>, file: &Filedata) -> (found: bool)
    ensures
        found == has_file(file_views(list@), file@),
{
    proof {
        law_find_file(file_views(list@), file@);
    }
    position_of_file(list, file).is_some()
}

impl Ranked for Filedata {
    open spec fn ranks_before(a: FiledataView, b: FiledataView) -> bool {
        path_before(a.relative_path, b.relative_path)
    }

    proof fn ranks_are_asymmetric(a: FiledataView, b: FiledataView) {
        law_path_order(a.relative_path, b.relative_path, a.relative_path);
    }

    proof fn ranks_are_transitive(a: FiledataView, b: FiledataView, c: FiledataView) {
        let (x, y, z) = (a.relative_path, b.relative_path, c.relative_path);
        if path_before(z, x) {
            law_path_order(x, y, z);
            law_path_order(y, z, x);
            law_path_order(z, x, y);
        }
    }

    fn is_ranked_before(&self, other: &Self) -> (before: bool) {
        path_comes_before(self.relative_path.as_str(), other.relative_path.as_str())
    }
}

/// Two records are of the same file exactly if the folders have the same name and the paths consist of
/// the same components.
pub proof fn law_same_file(a: FiledataView, b: FiledataView)
    ensures
        same_file(a, b) <==> a.folder_id == b.folder_id && components(a.relative_path)
            == components(b.relative_path),
{
}

/// Records are put in order by their paths.
pub proof fn law_files_rank_by_path(a: FiledataView, b: FiledataView)
    ensures
        Filedata::ranks_before(a, b) <==> path_before(a.relative_path, b.relative_path),
{
}

/// A record says what stands in it.
pub proof fn law_record_says_what_it_holds(file: Filedata)
    ensures
        file@.folder_id == file.folder_id@,
        file@.relative_path == file.relative_path@,
        file@.size == file.size,
        file@.modification_time == file.modification_time,
        file@.should_delete == file.should_delete,
{
}

/// The views of a list of files are those of its files, one by one.
pub proof fn law_file_views(list: Seq<Filedata>)
    ensures
        file_views(list).len() == list.len(),
        forall|i: int| 0 <= i < list.len() ==> #[trigger] file_views(list)[i] == list[i]@,
{
}

} // verus!
