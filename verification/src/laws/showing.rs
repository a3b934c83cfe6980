//! What the file system shows.

use vstd::prelude::*;
use crate::fuse;
use crate::fuse::{DirEntryView, FileAttr, FileKind, FsError, FsView};
use crate::fuse::moves;
use crate::fuse::moves::{
    MoveAction, MoveFlowView, MoveReply, MoveStage, MoveView, ReadAction, ReadReply, ReadStage,
};
use crate::fuse::tree;
use crate::fuse::tree::{FileTypeView, FsNodeView};
use crate::laws::reading;
use crate::paths;
use crate::syncthing::FileInfoView;
use crate::types::{GrizolFileInfoView, GrizolFolderView};

verus! {

// ---------------------------------------------------------------------------
// Attributes

/// What each type of file is shown as.
pub proof fn law_kinds(file_type: i32)
    ensures
        fuse::kind_of(0) == Some(FileKind::RegularFile),
        fuse::kind_of(1) == Some(FileKind::Directory),
        fuse::kind_of(2) == Some(FileKind::Symlink),
        fuse::kind_of(3) == Some(FileKind::Symlink),
        fuse::kind_of(4) == Some(FileKind::Symlink),
        file_type < 0 || file_type > 4 ==> fuse::kind_of(file_type) is None,
{
}

/// The inodes of folders and of files are their numbers in the database, from two starts. There
/// are as many of the first as fit before the second.
pub proof fn law_inodes(id: i64)
    requires
        id >= 0,
    ensures
        fuse::ROOT_ID == 1,
        fuse::has_entry_id(id),
        fuse::entry_ino(id) == id + 0x1_0000_0000,
        fuse::has_top_dir_id(id) <==> id < 0xffff_fff6,
        fuse::has_top_dir_id(id) ==> fuse::top_dir_ino(id) == id + 10,
{
}

/// A file has its own size, time of change, type, permissions and block size, and belongs to
/// the user that runs the client; it has attributes where its type is known.
pub proof fn law_attributes_of_a_file(f: GrizolFileInfoView, uid: u32, gid: u32)
    ensures
        fuse::file_attr(f, uid, gid) is Ok <==> 0 <= f.file_info.file_type <= 4,
        0 <= f.file_info.file_type <= 4 ==> {
            let a = fuse::file_attr(f, uid, gid)->Ok_0;
            &&& a.ino == fuse::entry_ino(f.id)
            &&& f.file_info.size >= 0 ==> a.size == f.file_info.size
            &&& f.file_info.modified_s >= 0 ==> a.modified_s == f.file_info.modified_s
            &&& f.file_info.modified_ns >= 0 ==> a.modified_ns == f.file_info.modified_ns
            &&& f.file_info.permissions <= 0xffff ==> a.perm == f.file_info.permissions
            &&& f.file_info.block_size >= 0 ==> a.blksize == f.file_info.block_size
            &&& a.kind is RegularFile <==> f.file_info.file_type == 0
            &&& a.kind is Directory <==> f.file_info.file_type == 1
            &&& a.uid == uid
            &&& a.gid == gid
            &&& a.blocks == 0 && a.nlink == 0 && a.rdev == 0 && a.flags == 0
        },
        0 > f.file_info.file_type || f.file_info.file_type > 4 ==> fuse::file_attr(f, uid, gid)
            == Err::<FileAttr, FsError>(FsError::UnknownType),
{
}

/// A folder is a directory that belongs to the user that runs the client.
pub proof fn law_attributes_of_a_folder(f: GrizolFolderView, uid: u32, gid: u32)
    ensures
        ({
            let a = fuse::folder_attr(f, uid, gid);
            &&& a.ino == fuse::top_dir_ino(f.id)
            &&& a.kind is Directory
            &&& a.perm == 493
            &&& a.uid == uid
            &&& a.gid == gid
            &&& a.blksize == 1024
            &&& a.size == 0 && a.modified_s == 0 && a.modified_ns == 0
        }),
        ({
            let a = fuse::root_attr(uid, gid);
            a.ino == 1 && a.kind is Directory && a.perm == 493 && a.uid == uid && a.gid == gid
                && a.blksize == 512
        }),
{
}

/// What an inode is answered with is what the first folder or file with that inode has.
pub proof fn law_attributes_found(v: FsView, ino: u64)
    requires
        ino != 1,
    ensures
        ino < 0x1_0000_0000 ==> match fuse::attr_in_lists(v, ino) {
            Ok(a) => exists|i: int|
                0 <= i < v.folders.len() && fuse::top_dir_ino((#[trigger] v.folders[i]).id) == ino
                    && a == fuse::folder_attr(v.folders[i], v.uid, v.gid),
            Err(e) => e == FsError::NoEntry && forall|i: int|
                0 <= i < v.folders.len() ==> fuse::top_dir_ino((#[trigger] v.folders[i]).id) != ino,
        },
        ino >= 0x1_0000_0000 ==> {
            let a = fuse::attr_in_lists(v, ino);
            ||| exists|i: int|
                0 <= i < v.files.len() && fuse::entry_ino((#[trigger] v.files[i]).id) == ino && a
                    == fuse::file_attr(v.files[i], v.uid, v.gid)
            ||| a == Err::<FileAttr, FsError>(FsError::NoEntry) && forall|i: int|
                0 <= i < v.files.len() ==> fuse::entry_ino((#[trigger] v.files[i]).id) != ino
        },
{
    fuse::lemma_first_where(v.folders, fuse::folder_has_ino(ino));
    fuse::lemma_first_where(v.files, fuse::file_has_ino(ino));
    if ino < 0x1_0000_0000 {
        match fuse::first_where(v.folders, fuse::folder_has_ino(ino)) {
            Some(i) => {
                assert(fuse::folder_has_ino(ino)(v.folders[i as int]));
            },
            None => {
                assert forall|i: int| 0 <= i < v.folders.len() implies fuse::top_dir_ino(
                    (#[trigger] v.folders[i]).id,
                ) != ino by {
                    assert(!fuse::folder_has_ino(ino)(v.folders[i]));
                }
            },
        }
    } else {
        match fuse::first_where(v.files, fuse::file_has_ino(ino)) {
            Some(i) => {
                assert(fuse::file_has_ino(ino)(v.files[i as int]));
            },
            None => {
                assert forall|i: int| 0 <= i < v.files.len() implies fuse::entry_ino(
                    (#[trigger] v.files[i]).id,
                ) != ino by {
                    assert(!fuse::file_has_ino(ino)(v.files[i]));
                }
            },
        }
    }
}

// ---------------------------------------------------------------------------
// Directories

/// The entries are those of the files at the positions, which are all the files that are
/// directly in the directory of the folder.
pub open spec fn are_entries_at(
    entries: Seq<DirEntryView>,
    files: Seq<GrizolFileInfoView>,
    folder: Seq<char>,
    dir: Seq<char>,
    at: Seq<int>,
) -> bool {
    &&& at.len() == entries.len()
    &&& reading::are_positions(at, files.len())
    &&& forall|k: int|
        0 <= k < at.len() ==> {
            let f = files[at[k]];
            &&& (#[trigger] entries[k]).ino == fuse::entry_ino(f.id)
            &&& entries[k].kind == fuse::kind_of(f.file_info.file_type)
            &&& paths::components_of(f.file_info.name) == paths::components_of(dir).push(
                entries[k].name,
            )
            &&& f.folder == folder
        }
    &&& forall|i: int|
        0 <= i < files.len() && (#[trigger] files[i]).folder == folder && paths::is_directly_in(
            dir,
            files[i].file_info.name,
        ) ==> at.contains(i)
}

proof fn lemma_dir_entries(files: Seq<GrizolFileInfoView>, folder: Seq<char>, dir: Seq<char>) -> (at:
    Seq<int>)
    ensures
        are_entries_at(fuse::dir_entries(files, folder, dir), files, folder, dir, at),
    decreases files.len(),
{
    if files.len() == 0 {
        Seq::empty()
    } else {
        let front = files.drop_last();
        let n: int = files.len() - 1;
        let before = lemma_dir_entries(front, folder, dir);
        assert(forall|i: int| 0 <= i < n ==> front[i] == files[i]);
        assert(files[n] == files.last());
        let old_entries = fuse::dir_entries(front, folder, dir);
        let entries = fuse::dir_entries(files, folder, dir);
        let here = fuse::is_in_dir(files[n], folder, dir);
        let at = if here {
            before.push(n)
        } else {
            before
        };
        assert forall|k: int| 0 <= k < at.len() implies (#[trigger] entries[k]).ino
            == fuse::entry_ino(files[at[k]].id) && entries[k].kind == fuse::kind_of(
            files[at[k]].file_info.file_type,
        ) && paths::components_of(files[at[k]].file_info.name) == paths::components_of(dir).push(
            entries[k].name,
        ) && files[at[k]].folder == folder by {
            if k < before.len() {
                assert(entries[k] == old_entries[k]);
                assert(0 <= before[k] < front.len());
                assert(at[k] == before[k]);
            } else {
                let c = paths::components_of(files[n].file_info.name);
                assert(c =~= c.drop_last().push(c.last()));
            }
        }
        assert forall|i: int|
            0 <= i < files.len() && (#[trigger] files[i]).folder == folder && paths::is_directly_in(
                dir,
                files[i].file_info.name,
            ) implies at.contains(i) by {
            if i < n {
                assert(front[i].folder == folder);
                let k = choose|k: int| 0 <= k < before.len() && before[k] == i;
                assert(at[k] == i);
            } else {
                assert(at[before.len() as int] == i);
            }
        }
        at
    }
}

/// A directory lists exactly the files that are directly in it, each under its name, in order.
pub proof fn law_directory_listed(
    files: Seq<GrizolFileInfoView>,
    folder: Seq<char>,
    dir: Seq<char>,
)
    ensures
        exists|at: Seq<int>|
            are_entries_at(fuse::dir_entries(files, folder, dir), files, folder, dir, at),
{
    let at = lemma_dir_entries(files, folder, dir);
}

/// The root lists exactly the folders, each under its id, in order.
pub proof fn law_root_listed(folders: Seq<GrizolFolderView>)
    requires
        folders.len() < i64::MAX,
    ensures
        ({
            let entries = fuse::root_entries(folders);
            &&& entries.len() == folders.len()
            &&& forall|i: int|
                0 <= i < folders.len() ==> {
                    &&& (#[trigger] entries[i]).name == folders[i].folder.id
                    &&& entries[i].ino == fuse::top_dir_ino(folders[i].id)
                    &&& entries[i].kind == Some(FileKind::Directory)
                    &&& entries[i].offset == i + 1
                }
        }),
{
}

/// The entries are numbered from one.
pub open spec fn are_numbered(entries: Seq<DirEntryView>) -> bool {
    forall|k: int| 0 <= k < entries.len() ==> (#[trigger] entries[k]).offset == k + 1
}

proof fn lemma_numbered(
    files: Seq<GrizolFileInfoView>,
    folder: Seq<char>,
    dir: Seq<char>,
    s: Seq<FsNodeView>,
    path: Seq<Seq<char>>,
)
    requires
        files.len() < i64::MAX,
        s.len() < i64::MAX,
    ensures
        are_numbered(fuse::dir_entries(files, folder, dir)),
        fuse::dir_entries(files, folder, dir).len() <= files.len(),
        are_numbered(fuse::node_entries(s, path)),
        fuse::node_entries(s, path).len() <= s.len(),
    decreases files.len() + s.len(),
{
    if files.len() > 0 {
        lemma_numbered(files.drop_last(), folder, dir, s, path);
        let old_entries = fuse::dir_entries(files.drop_last(), folder, dir);
        let entries = fuse::dir_entries(files, folder, dir);
        assert(forall|k: int| 0 <= k < old_entries.len() ==> entries[k] == old_entries[k]);
    } else if s.len() > 0 {
        lemma_numbered(files, folder, dir, s.drop_last(), path);
        let old_entries = fuse::node_entries(s.drop_last(), path);
        let entries = fuse::node_entries(s, path);
        assert(forall|k: int| 0 <= k < old_entries.len() ==> entries[k] == old_entries[k]);
    }
}

/// Reading a directory on from the offset of an entry gives the entries behind that one;
/// reading it from the start gives all of them.
pub proof fn law_reading_on(
    files: Seq<GrizolFileInfoView>,
    folder: Seq<char>,
    dir: Seq<char>,
    s: Seq<FsNodeView>,
    path: Seq<Seq<char>>,
    k: int,
)
    requires
        files.len() < usize::MAX,
        files.len() < i64::MAX,
        s.len() < usize::MAX,
        s.len() < i64::MAX,
    ensures
        ({
            let entries = fuse::dir_entries(files, folder, dir);
            &&& fuse::from_offset(entries, 0) == entries
            &&& 0 <= k < entries.len() ==> fuse::from_offset(entries, entries[k].offset)
                == entries.skip(k + 1)
        }),
        ({
            let entries = fuse::node_entries(s, path);
            &&& fuse::from_offset(entries, 0) == entries
            &&& 0 <= k < entries.len() ==> fuse::from_offset(entries, entries[k].offset)
                == entries.skip(k + 1)
        }),
{
    lemma_numbered(files, folder, dir, s, path);
    let a = fuse::dir_entries(files, folder, dir);
    let b = fuse::node_entries(s, path);
    assert(a.skip(0) =~= a);
    assert(b.skip(0) =~= b);
    if 0 <= k < a.len() {
        assert(a[k].offset == k + 1);
        assert(fuse::from_offset(a, a[k].offset) =~= a.skip(k + 1));
    }
    if 0 <= k < b.len() {
        assert(b[k].offset == k + 1);
        assert(fuse::from_offset(b, b[k].offset) =~= b.skip(k + 1));
    }
}

/// The entries are those of the nodes at the positions, which are all the nodes below the path.
pub open spec fn are_node_entries_at(
    entries: Seq<DirEntryView>,
    s: Seq<FsNodeView>,
    path: Seq<Seq<char>>,
    at: Seq<int>,
) -> bool {
    &&& at.len() == entries.len()
    &&& reading::are_positions(at, s.len())
    &&& forall|k: int|
        0 <= k < at.len() ==> {
            let n = s[at[k]];
            &&& (#[trigger] entries[k]).ino == n.id
            &&& n.path == path.push(entries[k].name)
            &&& entries[k].kind == match n.file_type {
                FileTypeView::Folder(_) => Some(FileKind::Directory),
                FileTypeView::File(f) => fuse::kind_of(f.file_info.file_type),
            }
        }
    &&& forall|i: int, name: Seq<char>|
        0 <= i < s.len() && #[trigger] s[i].path == #[trigger] path.push(name) ==> at.contains(i)
}

proof fn lemma_node_entries(s: Seq<FsNodeView>, path: Seq<Seq<char>>) -> (at: Seq<int>)
    ensures
        are_node_entries_at(fuse::node_entries(s, path), s, path, at),
    decreases s.len(),
{
    if s.len() == 0 {
        Seq::empty()
    } else {
        let front = s.drop_last();
        let n: int = s.len() - 1;
        let before = lemma_node_entries(front, path);
        assert(forall|i: int| 0 <= i < n ==> front[i] == s[i]);
        assert(s[n] == s.last());
        let old_entries = fuse::node_entries(front, path);
        let entries = fuse::node_entries(s, path);
        let here = tree::is_child(s[n].path, path);
        let at = if here {
            before.push(n)
        } else {
            before
        };
        assert forall|k: int| 0 <= k < at.len() implies {
            let m = s[at[k]];
            &&& (#[trigger] entries[k]).ino == m.id
            &&& m.path == path.push(entries[k].name)
            &&& entries[k].kind == match m.file_type {
                FileTypeView::Folder(_) => Some(FileKind::Directory),
                FileTypeView::File(f) => fuse::kind_of(f.file_info.file_type),
            }
        } by {
            if k < before.len() {
                assert(entries[k] == old_entries[k]);
                assert(0 <= before[k] < front.len());
                assert(at[k] == before[k]);
            } else {
                assert(s[n].path =~= path.push(s[n].path.last()));
            }
        }
        assert forall|i: int, name: Seq<char>|
            0 <= i < s.len() && #[trigger] s[i].path == #[trigger] path.push(
                name,
            ) implies at.contains(i) by {
            if i < n {
                assert(front[i].path == path.push(name));
                let k = choose|k: int| 0 <= k < before.len() && before[k] == i;
                assert(at[k] == i);
            } else {
                assert(path.push(name).drop_last() =~= path);
                assert(at[before.len() as int] == i);
            }
        }
        at
    }
}

/// A node of the tree lists exactly what is directly below it, in order.
pub proof fn law_node_listed(s: Seq<FsNodeView>, path: Seq<Seq<char>>)
    ensures
        exists|at: Seq<int>| are_node_entries_at(fuse::node_entries(s, path), s, path, at),
{
    let at = lemma_node_entries(s, path);
}

/// What a node lists can be looked up under the name that it is listed with, and nothing else
/// can: both ways lead to the same inode.
pub proof fn law_listed_can_be_looked_up(v: FsView, ino: u64, name: Seq<char>)
    requires
        tree::is_tree(v.tree),
        tree::place_of_id(v.tree, ino) is Some,
    ensures
        ({
            let parent = v.tree[tree::place_of_id(v.tree, ino)->0 as int];
            let entries = fuse::node_entries(v.tree, parent.path);
            let found = fuse::named_in_tree(v, ino, name);
            &&& (exists|k: int| 0 <= k < entries.len() && (#[trigger] entries[k]).name == name)
                <==> found != Err::<FileAttr, FsError>(FsError::NoEntry)
            &&& forall|k: int|
                0 <= k < entries.len() && (#[trigger] entries[k]).name == name && found is Ok
                    ==> found->Ok_0.ino == entries[k].ino
        }),
{
    let s = v.tree;
    tree::lemma_place_of_id(s, ino);
    let parent = s[tree::place_of_id(s, ino)->0 as int];
    let path = parent.path.push(name);
    let entries = fuse::node_entries(s, parent.path);
    let at = lemma_node_entries(s, parent.path);
    tree::lemma_place_of_path(s, path);
    match tree::place_of_path(s, path) {
        Some(j) => {
            assert(s[j as int].path == parent.path.push(name));
            assert(at.contains(j as int));
            let k = choose|k: int| 0 <= k < at.len() && at[k] == j as int;
            assert(s[at[k]].path == parent.path.push(entries[k].name));
            assert(parent.path.push(entries[k].name).last() == parent.path.push(name).last());
            assert(entries[k].name == name);
            assert(j as int != 0) by {
                if j == 0 {
                    assert(s[0].path.len() == 0);
                }
            }
            assert(tree::is_own_node(s[j as int]));
            assert forall|l: int|
                0 <= l < entries.len() && (#[trigger] entries[l]).name == name
                    && fuse::named_in_tree(v, ino, name) is Ok implies fuse::named_in_tree(
                v,
                ino,
                name,
            )->Ok_0.ino == entries[l].ino by {
                assert(s[at[l]].path == parent.path.push(entries[l].name));
                if at[l] < j {
                    assert(s[at[l]].path != s[j as int].path);
                } else if at[l] > j {
                    assert(s[j as int].path != s[at[l]].path);
                }
            }
        },
        None => {
            assert forall|k: int| 0 <= k < entries.len() implies (#[trigger] entries[k]).name
                != name by {
                if entries[k].name == name {
                    assert(s[at[k]].path == path);
                }
            }
        },
    }
}

/// A file can be read where it is in the tree and fits into the read cache; a directory
/// cannot be read.
pub proof fn law_readable(v: FsView, ino: u64)
    requires
        ino >= 0x1_0000_0000,
    ensures
        ({
            let r = fuse::readable_in_tree(v, ino);
            match tree::place_of_id(v.tree, ino) {
                None => r == Err::<GrizolFileInfoView, FsError>(FsError::NoEntry),
                Some(i) => match v.tree[i as int].file_type {
                    FileTypeView::Folder(_) => r == Err::<GrizolFileInfoView, FsError>(
                        FsError::IsDirectory,
                    ),
                    FileTypeView::File(f) => {
                        &&& r is Ok <==> 0 <= f.file_info.size <= v.read_cache_size
                        &&& r is Ok ==> r->Ok_0 == f
                        &&& r == Err::<GrizolFileInfoView, FsError>(FsError::TooBig)
                            <==> f.file_info.size > v.read_cache_size
                    },
                },
            }
        }),
{
}

// ---------------------------------------------------------------------------
// The tree

/// The path is that of something in `top`, or that of `top` itself.
pub open spec fn is_in(path: Seq<Seq<char>>, top: Seq<Seq<char>>) -> bool {
    path.len() >= top.len() && forall|i: int| 0 <= i < top.len() ==> #[trigger] path[i] == top[i]
}

/// What is put into the tree is there, in the place of what had its path and of all that was
/// in that; all else stays.
pub proof fn law_put_into_the_tree(s: Seq<FsNodeView>, n: FsNodeView, x: FsNodeView)
    ensures
        tree::with_node(s, n).contains(x) <==> x == n || s.contains(x) && !is_in(x.path, n.path),
{
    let w = tree::without(s, n.path);
    let r = tree::with_node(s, n);
    tree::lemma_without(s, n.path);
    assert(r[w.len() as int] == n);
    assert(tree::is_at_or_below(x.path, n.path) == is_in(x.path, n.path)) by {
        if is_in(x.path, n.path) {
            assert(x.path.take(n.path.len() as int) =~= n.path);
        }
        if tree::is_at_or_below(x.path, n.path) {
            assert forall|i: int| 0 <= i < n.path.len() implies #[trigger] x.path[i]
                == n.path[i] by {
                assert(x.path.take(n.path.len() as int)[i] == n.path[i]);
            }
        }
    }
    if r.contains(x) {
        let k = choose|k: int| 0 <= k < r.len() && r[k] == x;
        if k < w.len() {
            assert(w[k] == x);
            let i = choose|i: int|
                k <= i < s.len() && #[trigger] w[k] == #[trigger] s[i] && !tree::is_at_or_below(
                    s[i].path,
                    n.path,
                );
            assert(s[i] == x);
        }
    }
    if s.contains(x) && !is_in(x.path, n.path) {
        let i = choose|i: int| 0 <= i < s.len() && s[i] == x;
        let k = choose|k: int| 0 <= k <= i && k < w.len() && #[trigger] w[k] == s[i];
        assert(r[k] == x);
    }
}

/// A file stands in the tree below its folder, under its name with a level for each directory;
/// a folder stands below the root.
pub proof fn law_places_in_the_tree(f: GrizolFileInfoView, d: GrizolFolderView)
    ensures
        tree::file_node(f).id == fuse::entry_ino(f.id),
        tree::file_node(f).file_type == FileTypeView::File(f),
        tree::file_node(f).path[0] == f.folder,
        tree::file_node(f).path.skip(1) == paths::slash_parts(f.file_info.name),
        paths::slash_joined(tree::file_node(f).path.skip(1)) == f.file_info.name,
        tree::folder_node(d).id == fuse::top_dir_ino(d.id),
        tree::folder_node(d).file_type == FileTypeView::Folder(d),
        tree::folder_node(d).path == seq![d.folder.id],
        tree::root_node().id == 1,
        tree::root_node().path.len() == 0,
{
    paths::lemma_joined_parts(f.file_info.name);
    assert(tree::file_node(f).path.skip(1) =~= paths::slash_parts(f.file_info.name));
}

// ---------------------------------------------------------------------------
// Moves

/// The inode is that of a directory: that of a folder, or that of a file which is one.
pub open spec fn is_directory_at(v: FsView, ino: u64, top: Seq<char>, dir: Option<Seq<char>>) -> bool {
    ||| ino < 0x1_0000_0000 && dir is None && exists|i: int|
        0 <= i < v.folders.len() && fuse::top_dir_ino((#[trigger] v.folders[i]).id) == ino && top
            == v.folders[i].folder.id
    ||| ino >= 0x1_0000_0000 && dir is Some && exists|i: int|
        0 <= i < v.files.len() && fuse::entry_ino((#[trigger] v.files[i]).id) == ino && top
            == v.files[i].folder && dir == Some(v.files[i].file_info.name)
}

/// The path of a name in a directory.
pub open spec fn path_in_directory(dir: Option<Seq<char>>, name: Seq<char>) -> Seq<char> {
    match dir {
        Some(d) => d + "/"@ + name,
        None => name,
    }
}

proof fn lemma_dirs(v: FsView, ino: u64)
    ensures
        ino != 1 && moves::dirs_of(v, ino) is Some ==> {
            let d = moves::dirs_of(v, ino)->0;
            d.top_folder is Some && is_directory_at(v, ino, d.top_folder->0, d.dir)
        },
        ino == 1 ==> (moves::dirs_of(v, ino) is Some && moves::dirs_of(v, ino)->0.top_folder is None),
{
    fuse::lemma_first_where(v.folders, fuse::folder_has_ino(ino));
    fuse::lemma_first_where(v.files, fuse::file_has_ino(ino));
    if ino < 0x1_0000_0000 {
        if let Some(i) = fuse::first_where(v.folders, fuse::folder_has_ino(ino)) {
            assert(fuse::folder_has_ino(ino)(v.folders[i as int]));
        }
    } else {
        if let Some(i) = fuse::first_where(v.files, fuse::file_has_ino(ino)) {
            assert(fuse::file_has_ino(ino)(v.files[i as int]));
        }
    }
}

/// What is moved is the file with the old name in the directory that it is in; it goes to the
/// new name in the other directory, in the folder of that directory.
pub proof fn law_file_moved(
    v: FsView,
    orig_parent: u64,
    orig_name: Seq<char>,
    dest_parent: u64,
    dest_name: Seq<char>,
)
    requires
        moves::move_in_lists(v, orig_parent, orig_name, dest_parent, dest_name) is Some,
    ensures
        ({
            let m = moves::move_in_lists(v, orig_parent, orig_name, dest_parent, dest_name)->0;
            &&& exists|dir: Option<Seq<char>>| #[trigger]
                is_directory_at(v, orig_parent, m.orig_folder, dir) && m.orig_file_path
                    == path_in_directory(dir, orig_name)
            &&& exists|dir: Option<Seq<char>>| #[trigger]
                is_directory_at(v, dest_parent, m.dest_folder, dir) && m.dest_file_path
                    == path_in_directory(dir, dest_name)
            &&& exists|i: int|
                0 <= i < v.files.len() && (#[trigger] v.files[i]).folder == m.orig_folder
                    && v.files[i].file_info.name == m.orig_file_path
            &&& exists|i: int|
                0 <= i < v.folders.len() && (#[trigger] v.folders[i]).folder.id == m.dest_folder
        }),
{
    lemma_dirs(v, orig_parent);
    lemma_dirs(v, dest_parent);
    let orig = moves::dirs_of(v, orig_parent)->0;
    let dest = moves::dirs_of(v, dest_parent)->0;
    let p = moves::file_is(orig, orig_name);
    fuse::lemma_first_where(v.files, p);
    let i = fuse::first_where(v.files, p)->0;
    assert(p(v.files[i as int]));
    assert(is_directory_at(v, orig_parent, v.files[i as int].folder, orig.dir));
    let folder = dest.top_folder->0;
    fuse::lemma_first_where(v.folders, fuse::folder_has_name(folder));
    let j = fuse::first_where(v.folders, fuse::folder_has_name(folder))->0;
    assert(fuse::folder_has_name(folder)(v.folders[j as int]));
    assert(is_directory_at(v, dest_parent, folder, dest.dir));
}

/// The root lists its folders; looking up a name below the root finds the first folder with
/// that id, and below a directory the first file with that name that is directly in it.
pub proof fn law_looked_up_in_lists(v: FsView, parent: u64, name: Seq<char>)
    ensures
        parent == 1 ==> match fuse::named_in_lists(v, parent, name) {
            Ok(a) => exists|i: int|
                0 <= i < v.folders.len() && (#[trigger] v.folders[i]).folder.id == name && a
                    == fuse::folder_attr(v.folders[i], v.uid, v.gid),
            Err(e) => e == FsError::NoEntry && forall|i: int|
                0 <= i < v.folders.len() ==> (#[trigger] v.folders[i]).folder.id != name,
        },
        parent != 1 && parent < 0x1_0000_0000 ==> is_found(v, name, Seq::empty(), parent),
        parent >= 0x1_0000_0000 ==> {
            ||| fuse::named_in_lists(v, parent, name) == Err::<FileAttr, FsError>(FsError::Io)
                && forall|i: int|
                0 <= i < v.files.len() ==> fuse::entry_ino((#[trigger] v.files[i]).id) != parent
            ||| exists|i: int|
                0 <= i < v.files.len() && fuse::entry_ino((#[trigger] v.files[i]).id) == parent
                    && is_found(v, name, v.files[i].file_info.name, parent)
        },
{
    if parent == 1 {
        fuse::lemma_first_where(v.folders, fuse::folder_has_name(name));
        match fuse::first_where(v.folders, fuse::folder_has_name(name)) {
            Some(i) => {
                assert(fuse::folder_has_name(name)(v.folders[i as int]));
            },
            None => {
                assert forall|i: int| 0 <= i < v.folders.len() implies (
                #[trigger] v.folders[i]).folder.id != name by {
                    assert(!fuse::folder_has_name(name)(v.folders[i]));
                }
            },
        }
    } else if parent < 0x1_0000_0000 {
        lemma_found(v, name, Seq::empty(), parent);
    } else {
        fuse::lemma_first_where(v.files, fuse::file_has_ino(parent));
        match fuse::first_where(v.files, fuse::file_has_ino(parent)) {
            Some(i) => {
                assert(fuse::file_has_ino(parent)(v.files[i as int]));
                lemma_found(v, name, v.files[i as int].file_info.name, parent);
            },
            None => {
                assert forall|i: int| 0 <= i < v.files.len() implies fuse::entry_ino(
                    (#[trigger] v.files[i]).id,
                ) != parent by {
                    assert(!fuse::file_has_ino(parent)(v.files[i]));
                }
            },
        }
    }
}

/// The file has the name and is directly in the directory.
pub open spec fn is_named_in(f: GrizolFileInfoView, name: Seq<char>, dir: Seq<char>) -> bool {
    paths::file_name_of(f.file_info.name) == Some(name) && paths::is_directly_in(
        dir,
        f.file_info.name,
    )
}

/// What is found is a file with the name in the directory, and nothing is where there is none.
pub open spec fn is_found(v: FsView, name: Seq<char>, dir: Seq<char>, parent: u64) -> bool {
    let a = fuse::named_in_lists(v, parent, name);
    ||| exists|i: int|
        0 <= i < v.files.len() && is_named_in(#[trigger] v.files[i], name, dir) && a
            == fuse::file_attr(v.files[i], v.uid, v.gid)
    ||| a == Err::<FileAttr, FsError>(FsError::NoEntry) && forall|i: int|
        0 <= i < v.files.len() ==> !is_named_in(#[trigger] v.files[i], name, dir)
}

proof fn lemma_found(v: FsView, name: Seq<char>, dir: Seq<char>, parent: u64)
    requires
        parent != 1,
        fuse::base_dir_of(parent, v.files) == Some(dir),
    ensures
        is_found(v, name, dir, parent),
{
    let p = fuse::file_has_name(name, dir);
    fuse::lemma_first_where(v.files, p);
    match fuse::first_where(v.files, p) {
        Some(i) => {
            assert(p(v.files[i as int]));
            assert(is_named_in(v.files[i as int], name, dir));
        },
        None => {
            assert forall|i: int| 0 <= i < v.files.len() implies !is_named_in(
                #[trigger] v.files[i],
                name,
                dir,
            ) by {
                assert(!p(v.files[i]));
            }
        },
    }
}

/// What a directory lists is what is in it: below a folder, all files of the folder that are
/// in no directory; below a directory, all files of its folder that are directly in it.
pub proof fn law_listed_in_lists(v: FsView, ino: u64, offset: i64)
    requires
        ino != 1,
    ensures
        match fuse::listed_in_lists(v, ino, offset) {
            Ok(entries) => exists|top: Seq<char>, dir: Option<Seq<char>>| #[trigger]
                is_directory_at(v, ino, top, dir) && entries == fuse::from_offset(
                    fuse::dir_entries(
                        v.files,
                        top,
                        match dir {
                            Some(d) => d,
                            None => Seq::empty(),
                        },
                    ),
                    offset,
                ),
            Err(e) => e == FsError::NoEntry && forall|top: Seq<char>, dir: Option<Seq<char>>|
                !#[trigger] is_directory_at(v, ino, top, dir),
        },
        fuse::listed_in_lists(v, 1, offset) == Ok::<Seq<DirEntryView>, FsError>(
            fuse::from_offset(fuse::root_entries(v.folders), offset),
        ),
{
    fuse::lemma_first_where(v.folders, fuse::folder_has_ino(ino));
    fuse::lemma_first_where(v.files, fuse::file_has_ino(ino));
    if ino < 0x1_0000_0000 {
        match fuse::first_where(v.folders, fuse::folder_has_ino(ino)) {
            Some(i) => {
                assert(fuse::folder_has_ino(ino)(v.folders[i as int]));
                assert(is_directory_at(v, ino, v.folders[i as int].folder.id, None));
            },
            None => {
                assert forall|i: int| 0 <= i < v.folders.len() implies fuse::top_dir_ino(
                    (#[trigger] v.folders[i]).id,
                ) != ino by {
                    assert(!fuse::folder_has_ino(ino)(v.folders[i]));
                }
            },
        }
    } else {
        match fuse::first_where(v.files, fuse::file_has_ino(ino)) {
            Some(i) => {
                let f = v.files[i as int];
                assert(fuse::file_has_ino(ino)(f));
                assert(is_directory_at(v, ino, f.folder, Some(f.file_info.name)));
            },
            None => {
                assert forall|i: int| 0 <= i < v.files.len() implies fuse::entry_ino(
                    (#[trigger] v.files[i]).id,
                ) != ino by {
                    assert(!fuse::file_has_ino(ino)(v.files[i]));
                }
            },
        }
    }
}

/// The name of something below a node starts with the name of the node, unless that is a
/// folder.
pub proof fn law_name_below(n: FsNodeView, name: Seq<char>)
    ensures
        n.file_type matches FileTypeView::File(f) ==> moves::name_below(n, name) == f.file_info.name
            + "/"@ + name,
        n.file_type is Folder ==> moves::name_below(n, name) == name,
{
}

/// The file that is written is the one that was read, under its new name, and it is said to be
/// where it was copied to. Only then does what is at the old place go.
pub proof fn law_way_of_a_move(
    before: MoveFlowView,
    reply: MoveReply,
    after: MoveFlowView,
    action: MoveAction,
)
    requires
        moves::move_fits(before, reply),
        moves::is_move_step(before, reply, after, action),
    ensures
        after.dest_file_path == before.dest_file_path,
        after.inmem == before.inmem,
        before.stage == MoveStage::Reading ==> match reply->File_0 {
            Some(f) => action is Copy && after.stage == MoveStage::Copying && after.file == Some(f@),
            None => action is Fail && after.stage == MoveStage::Done,
        },
        before.stage == MoveStage::Copying && reply->Copied_0 is Ok ==> {
            &&& action matches MoveAction::Insert(f)
            &&& after.stage == MoveStage::Inserting
            &&& f@.name == before.dest_file_path
            &&& f@.size == before.file->0.size
            &&& f@.blocks == before.file->0.blocks
            &&& f@.version == before.file->0.version
            &&& f@.permissions == before.file->0.permissions
            &&& f@.modified_s == before.file->0.modified_s
        },
        before.stage == MoveStage::Copying && reply->Copied_0 is Err ==> (before.inmem <==> action
            is GiveUp),
        before.stage == MoveStage::Inserting ==> (action is WriteLocations <==> before.copied is Ok),
        before.stage == MoveStage::Locating ==> action is Delete && after.stage
            == MoveStage::Deleting,
        before.stage == MoveStage::Deleting ==> action is Remove && after.stage
            == MoveStage::Removing,
        before.stage == MoveStage::Removing ==> (action is Finish <==> reply->Removed_0 is Ok),
{
}

/// A file that is in the read cache is read from there. Otherwise room for its size is made,
/// what has to leave is removed, and the file is copied there first.
pub proof fn law_way_of_a_read(
    size: u64,
    freed: Vec<(String, String)>,
    data: Vec<u8>,
    stage: ReadStage,
    message: String,
)
    ensures
        ({
            let did = ReadReply::Did(Ok(()));
            &&& moves::read_step(ReadStage::Checking, size, ReadReply::InCache(true)) == (
                ReadStage::Touching,
                ReadAction::Touch,
            )
            &&& moves::read_step(ReadStage::Checking, size, ReadReply::InCache(false)) == (
                ReadStage::Freeing,
                ReadAction::Free(size),
            )
            &&& moves::read_step(ReadStage::Freeing, size, ReadReply::Freed(freed)) == (
                ReadStage::Removing,
                ReadAction::Remove(freed),
            )
            &&& moves::read_step(ReadStage::Removing, size, did) == (
                ReadStage::Copying,
                ReadAction::Copy,
            )
            &&& moves::read_step(ReadStage::Copying, size, did) == (
                ReadStage::Touching,
                ReadAction::Touch,
            )
            &&& moves::read_step(ReadStage::Touching, size, did) == (
                ReadStage::Reading,
                ReadAction::Read,
            )
            &&& moves::read_step(ReadStage::Reading, size, ReadReply::Data(Ok(data))) == (
                ReadStage::Done,
                ReadAction::Reply(data),
            )
            &&& moves::read_step(stage, size, ReadReply::Did(Err(message))) == (
                ReadStage::Done,
                ReadAction::Fail(message),
            )
        }),
{
}

} // verus!
