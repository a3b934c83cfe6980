//! The files that devices have, by folder and device.

use vstd::prelude::*;
use crate::assoc;
use crate::assoc::{AssocMap, Key};
use crate::device_id::DeviceId;
use crate::syncthing::{FileInfo, FileInfoView, Index};

verus! {

/// A folder as one device has it.
#[derive(Debug, PartialEq, Eq, PartialOrd, Ord, Hash)]
pub struct FolderDevice {
    pub folder: String,
    pub device_id: DeviceId,
}

#[verifier::ext_equal]
pub struct FolderDeviceView {
    pub folder: Seq<char>,
    pub device_id: Seq<u8>,
}

impl View for FolderDevice {
    type V = FolderDeviceView;

    open spec fn view(&self) -> FolderDeviceView {
        FolderDeviceView { folder: self.folder@, device_id: self.device_id.id@ }
    }
}

impl Clone for FolderDevice {
    fn clone(&self) -> (r: Self)
        ensures
            r@ == self@,
    {
        FolderDevice { folder: self.folder.clone(), device_id: self.device_id }
    }
}

impl Key for FolderDevice {
    fn same(&self, other: &Self) -> (r: bool) {
        self.folder == other.folder && self.device_id == other.device_id
    }
}

/// The files of a folder, by name.
#[verifier::ext_equal]
pub struct FilesView {
    pub folder: Seq<char>,
    pub files: Map<Seq<char>, FileInfoView>,
}

/// The files by name, where later ones replace earlier ones of the same name.
pub open spec fn by_name(files: Seq<FileInfoView>) -> Map<Seq<char>, FileInfoView>
    decreases files.len(),
{
    if files.len() == 0 {
        Map::empty()
    } else {
        by_name(files.drop_last()).insert(files.last().name, files.last())
    }
}

/// No two files have the same name.
pub open spec fn names_distinct(files: Seq<FileInfoView>) -> bool {
    forall|i: int, j: int|
        0 <= i < j < files.len() ==> (#[trigger] files[i]).name != (#[trigger] files[j]).name
}

/// The index lists these files, each once, in whatever order.
pub open spec fn lists(index: Index, v: FilesView) -> bool {
    &&& index.folder@ == v.folder
    &&& by_name(crate::views(index.files@)) == v.files
    &&& names_distinct(crate::views(index.files@))
}

/// What a folder without an index is taken for.
pub open spec fn no_files() -> FilesView {
    FilesView { folder: Seq::empty(), files: Map::empty() }
}

#[derive(Debug)]
struct GrizolIndex {
    folder: String,
    files: AssocMap<String, FileInfo>,
}

impl View for GrizolIndex {
    type V = FilesView;

    closed spec fn view(&self) -> FilesView {
        FilesView { folder: self.folder@, files: self.files@ }
    }
}

/// Every file is found under its name.
spec fn well_named(files: Map<Seq<char>, FileInfoView>) -> bool {
    forall|name: Seq<char>| #[trigger]
        files.dom().contains(name) ==> files[name].name == name
}

impl GrizolIndex {
    spec fn wf(&self) -> bool {
        well_named(self.files@)
    }

    fn new() -> (r: Self)
        ensures
            r.wf(),
            r@ == no_files(),
    {
        let r = GrizolIndex { folder: String::new(), files: AssocMap::new() };
        assert(r.folder@ =~= Seq::empty());
        r
    }

    fn add_files(&mut self, files: Vec<FileInfo>)
        requires
            old(self).wf(),
        ensures
            final(self).wf(),
            final(self).folder == old(self).folder,
            final(self).files@ == old(self).files@.union_prefer_right(
                by_name(crate::views(files@)),
            ),
    {
        let ghost all = crate::views(files@);
        let mut i: usize = 0;
        assert(all.take(0) =~= Seq::empty());
        assert(self.files@ =~= old(self).files@.union_prefer_right(by_name(all.take(0))));
        while i < files.len()
            invariant
                i <= files@.len(),
                all == crate::views(files@),
                self.wf(),
                self.folder == old(self).folder,
                self.files@ == old(self).files@.union_prefer_right(by_name(all.take(i as int))),
            decreases files@.len() - i,
        {
            proof {
                assert(all.take(i + 1).drop_last() =~= all.take(i as int));
                assert(all.take(i + 1).last() == files@[i as int]@);
            }
            let ghost before = self.files@;
            let _ = self.files.insert(files[i].name.clone(), files[i].clone());
            assert(self.files@ =~= old(self).files@.union_prefer_right(by_name(all.take(i + 1))));
            i += 1;
        }
        assert(all.take(all.len() as int) =~= all);
    }

    fn from_index(value: Index) -> (r: Self)
        ensures
            r.wf(),
            r@ == (FilesView {
                folder: value.folder@,
                files: by_name(crate::views(value.files@)),
            }),
    {
        let mut grizol_index = GrizolIndex::new();
        grizol_index.folder = value.folder;
        grizol_index.add_files(value.files);
        assert(Map::<Seq<char>, FileInfoView>::empty().union_prefer_right(
            by_name(crate::views(value.files@)),
        ) =~= by_name(crate::views(value.files@)));
        grizol_index
    }

    fn to_index(&self) -> (r: Index)
        requires
            self.wf(),
        ensures
            lists(r, self@),
    {
        let mut files: Vec<FileInfo> = Vec::new();
        let mut i: usize = 0;
        let ghost listed = self.files.listed();
        self.files.check_listed();
        proof {
            assoc::lemma_map_of(listed);
            assert(listed.take(0) =~= Seq::empty());
            assert(crate::views(files@) =~= Seq::empty());
        }
        while i < self.files.len()
            invariant
                i <= listed.len(),
                self.wf(),
                listed == self.files.listed(),
                assoc::distinct(listed),
                assoc::map_of(listed) == self.files@,
                forall|j: int|
                    0 <= j < listed.len() ==> self.files@.dom().contains(
                        (#[trigger] listed[j]).0@,
                    ) && self.files@[listed[j].0@] == listed[j].1@,
                files@.len() == i,
                forall|j: int| 0 <= j < i ==> (#[trigger] files@[j])@ == listed[j].1@,
                by_name(crate::views(files@)) == assoc::map_of(listed.take(i as int)),
            decreases listed.len() - i,
        {
            let file = self.files.value_at(i).clone();
            proof {
                assert(self.files@.dom().contains(listed[i as int].0@));
                assert(listed.take(i + 1).drop_last() =~= listed.take(i as int));
                crate::lemma_views_push(files@, file);
                assert(crate::views(files@).push(file@).drop_last() =~= crate::views(files@));
            }
            files.push(file);
            i += 1;
        }
        proof {
            assert(listed.take(listed.len() as int) =~= listed);
            let vs = crate::views(files@);
            assert forall|a: int, b: int| 0 <= a < b < vs.len() implies (#[trigger] vs[a]).name != (
            #[trigger] vs[b]).name by {
                assert(files@[a]@ == listed[a].1@ && files@[b]@ == listed[b].1@);
                assert(self.files@.dom().contains(listed[a].0@));
                assert(self.files@.dom().contains(listed[b].0@));
            }
        }
        Index { folder: self.folder.clone(), files }
    }
}

/// The indices that are known.
#[derive(Debug)]
pub struct GrizolIndices {
    indices: AssocMap<FolderDevice, GrizolIndex>,
}

impl View for GrizolIndices {
    type V = Map<FolderDeviceView, FilesView>;

    closed spec fn view(&self) -> Map<FolderDeviceView, FilesView> {
        self.indices@
    }
}

impl GrizolIndices {
    /// Every index is well formed.
    pub closed spec fn wf(&self) -> bool {
        forall|key: FolderDeviceView| #[trigger]
            self.indices@.dom().contains(key) ==> well_named(self.indices@[key].files)
    }
}

impl Default for GrizolIndices {
    fn default() -> (r: Self)
        ensures
            r.wf(),
            r@ == Map::<FolderDeviceView, FilesView>::empty(),
    {
        GrizolIndices { indices: AssocMap::new() }
    }
}

impl GrizolIndices {
    /// Takes in an index of a device; returns the one it replaces.
    pub fn insert(&mut self, device_id: DeviceId, index: Index) -> (r: Option<Index>)
        requires
            old(self).wf(),
        ensures
            final(self).wf(),
            ({
                let key = FolderDeviceView { folder: index.folder@, device_id: device_id.id@ };
                &&& final(self)@ == old(self)@.insert(
                    key,
                    FilesView {
                        folder: index.folder@,
                        files: by_name(crate::views(index.files@)),
                    },
                )
                &&& match r {
                    Some(x) => old(self)@.dom().contains(key) && lists(x, old(self)@[key]),
                    None => !old(self)@.dom().contains(key),
                }
            }),
    {
        let key = FolderDevice { device_id, folder: index.folder.clone() };
        match self.indices.insert(key, GrizolIndex::from_index(index)) {
            Some(x) => Some(x.to_index()),
            None => None,
        }
    }

    /// The index of a folder as a device has it.
    pub fn index(&self, folder_device: &FolderDevice) -> (r: Option<Index>)
        requires
            self.wf(),
        ensures
            match r {
                Some(x) => self@.dom().contains(folder_device@) && lists(
                    x,
                    self@[folder_device@],
                ),
                None => !self@.dom().contains(folder_device@),
            },
    {
        match self.indices.get(folder_device) {
            Some(x) => Some(x.to_index()),
            None => None,
        }
    }

    /// Takes in files of a device, in place of those with the same names.
    pub fn insert_file_info(
        &mut self,
        folder: &str,
        device_id: &DeviceId,
        file_info: Vec<FileInfo>,
    )
        requires
            old(self).wf(),
        ensures
            final(self).wf(),
            ({
                let key = FolderDeviceView { folder: folder@, device_id: device_id.id@ };
                let before = files_or_none(old(self)@, key);
                final(self)@ == old(self)@.insert(
                    key,
                    FilesView {
                        folder: before.folder,
                        files: before.files.union_prefer_right(
                            by_name(crate::views(file_info@)),
                        ),
                    },
                )
            }),
    {
        let folder_device = FolderDevice { folder: folder.to_owned(), device_id: *device_id };
        let mut index = match self.indices.remove(&folder_device) {
            Some(index) => index,
            None => GrizolIndex::new(),
        };
        index.add_files(file_info);
        let ghost key = folder_device@;
        let _ = self.indices.insert(folder_device, index);
        assert(old(self)@.remove(key).insert(key, index@) =~= old(self)@.insert(key, index@));
    }

    /// Takes a file of a device out; returns it, if it was there.
    pub fn remove_file_info(
        &mut self,
        folder: &str,
        device_id: &DeviceId,
        file_name: &str,
    ) -> (r: Option<FileInfo>)
        requires
            old(self).wf(),
        ensures
            final(self).wf(),
            ({
                let key = FolderDeviceView { folder: folder@, device_id: device_id.id@ };
                let before = files_or_none(old(self)@, key);
                &&& final(self)@ == old(self)@.insert(
                    key,
                    FilesView { folder: before.folder, files: before.files.remove(file_name@) },
                )
                &&& match r {
                    Some(x) => before.files.dom().contains(file_name@) && x@
                        == before.files[file_name@],
                    None => !before.files.dom().contains(file_name@),
                }
            }),
    {
        let folder_device = FolderDevice { folder: folder.to_owned(), device_id: *device_id };
        let mut index = match self.indices.remove(&folder_device) {
            Some(index) => index,
            None => GrizolIndex::new(),
        };
        let removed = index.files.remove(&file_name.to_owned());
        let ghost key = folder_device@;
        let _ = self.indices.insert(folder_device, index);
        assert(old(self)@.remove(key).insert(key, index@) =~= old(self)@.insert(key, index@));
        removed
    }
}

/// The files under a key; an index without a folder name where there is none.
pub open spec fn files_or_none(
    m: Map<FolderDeviceView, FilesView>,
    key: FolderDeviceView,
) -> FilesView {
    if m.dom().contains(key) {
        m[key]
    } else {
        no_files()
    }
}

pub proof fn lemma_by_name(files: Seq<FileInfoView>)
    requires
        names_distinct(files),
    ensures
        forall|i: int|
            0 <= i < files.len() ==> by_name(files).dom().contains((#[trigger] files[i]).name)
                && by_name(files)[files[i].name] == files[i],
        forall|name: Seq<char>| #[trigger]
            by_name(files).dom().contains(name) ==> files.contains(by_name(files)[name]),
        by_name(files).dom().finite(),
        by_name(files).dom().len() == files.len(),
    decreases files.len(),
{
    if files.len() > 0 {
        let front = files.drop_last();
        lemma_by_name(front);
        assert forall|i: int| 0 <= i < files.len() implies by_name(files).dom().contains(
            (#[trigger] files[i]).name,
        ) && by_name(files)[files[i].name] == files[i] by {
            if i < front.len() {
                assert(front[i] == files[i]);
                assert(files[i].name != files[files.len() - 1].name);
            }
        }
        assert forall|name: Seq<char>| #[trigger] by_name(files).dom().contains(
            name,
        ) implies files.contains(by_name(files)[name]) by {
            if name == files.last().name {
                assert(files[files.len() - 1] == by_name(files)[name]);
            } else {
                assert(by_name(front).dom().contains(name));
                let j = choose|j: int| 0 <= j < front.len() && front[j] == by_name(front)[name];
                assert(files[j] == by_name(files)[name]);
            }
        }
        if by_name(front).dom().contains(files.last().name) {
            let x = by_name(front)[files.last().name];
            let j = choose|j: int| 0 <= j < front.len() && front[j] == x;
            assert(by_name(front)[front[j].name] == front[j]);
            assert(files[j].name != files[files.len() - 1].name);
            assert(front[j].name == files.last().name) by {
                lemma_by_name_named(front, files.last().name);
            }
        }
        assert(by_name(files).dom() =~= by_name(front).dom().insert(files.last().name));
    } else {
        assert(by_name(files).dom() =~= Set::empty());
    }
}

pub proof fn lemma_by_name_named(files: Seq<FileInfoView>, name: Seq<char>)
    requires
        by_name(files).dom().contains(name),
    ensures
        by_name(files)[name].name == name,
    decreases files.len(),
{
    if name != files.last().name {
        lemma_by_name_named(files.drop_last(), name);
    }
}

/// An index whose files have different names is given back with exactly these files.
pub proof fn law_index_given_back(given: Seq<FileInfoView>, back: Seq<FileInfoView>)
    requires
        names_distinct(given),
        names_distinct(back),
        by_name(back) == by_name(given),
    ensures
        back.len() == given.len(),
        forall|f: FileInfoView| back.contains(f) <==> given.contains(f),
{
    lemma_by_name(given);
    lemma_by_name(back);
    assert forall|f: FileInfoView| back.contains(f) <==> given.contains(f) by {
        if back.contains(f) {
            let i = choose|i: int| 0 <= i < back.len() && back[i] == f;
            assert(by_name(back).dom().contains(back[i].name));
            assert(by_name(given).dom().contains(f.name));
        }
        if given.contains(f) {
            let i = choose|i: int| 0 <= i < given.len() && given[i] == f;
            assert(by_name(given).dom().contains(given[i].name));
            assert(by_name(back).dom().contains(f.name));
        }
    }
}

} // verus!
