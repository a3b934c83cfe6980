//! The folders as a file system: what the kernel is told about files and directories, and
//! what is done when they are moved.

pub mod moves;
pub mod tree;

use vstd::prelude::*;
use crate::config::GrizolConfig;
use crate::fuse::tree::{FileTypeView, FsNode, FsNodeView, GrizolFSFileType, GrizolFsMem};
use crate::paths;
use crate::text;
use crate::types::{GrizolFileInfo, GrizolFileInfoView, GrizolFolder, GrizolFolderView};

verus! {

/// The inode of the directory that holds all folders.
pub const ROOT_ID: u64 = 1;

/// The inodes of files start here.
pub const ENTRIES_START: u64 = 0x1_0000_0000;

/// The inodes of folders start here.
pub const TOP_DIRS_START: u64 = 10;

/// Whether folders and files are to be read from the database again, where they were last
/// read that many milliseconds ago, if at all.
pub fn needs_refresh(elapsed_ms: Option<u64>, rate_ms: u64) -> (r: bool)
    ensures
        r == (match elapsed_ms {
            Some(elapsed) => elapsed >= rate_ms,
            None => true,
        }),
{
    match elapsed_ms {
        Some(elapsed) => elapsed >= rate_ms,
        None => true,
    }
}

/// A file with this number in the database has an inode.
pub open spec fn has_entry_id(e_id: i64) -> bool {
    (e_id as u64) + ENTRIES_START <= u64::MAX
}

/// A folder with this number in the database has an inode.
pub open spec fn has_top_dir_id(d_id: i64) -> bool {
    (d_id as u64) + TOP_DIRS_START < ENTRIES_START
}

/// The inode of a file.
pub open spec fn entry_ino(e_id: i64) -> u64 {
    ((e_id as u64) + ENTRIES_START) as u64
}

/// The inode of a folder.
pub open spec fn top_dir_ino(d_id: i64) -> u64 {
    ((d_id as u64) + TOP_DIRS_START) as u64
}

/// The inode of a file.
pub fn entry_id(e_id: i64) -> (r: u64)
    requires
        has_entry_id(e_id),
    ensures
        r == entry_ino(e_id),
{
    #[verifier::truncate]
    let n: u64 = e_id as u64;
    n + ENTRIES_START
}

/// The inode of a folder.
pub fn top_dir_id(d_id: i64) -> (r: u64)
    requires
        has_top_dir_id(d_id),
    ensures
        r == top_dir_ino(d_id),
{
    #[verifier::truncate]
    let n: u64 = d_id as u64;
    n + TOP_DIRS_START
}

/// The inodes of the root, of folders and of files are all different.
pub proof fn law_inodes_differ(d: i64, e: i64, f: i64)
    requires
        has_top_dir_id(d),
        has_entry_id(e),
        has_entry_id(f),
    ensures
        ROOT_ID < top_dir_ino(d) < entry_ino(e),
        entry_ino(e) == entry_ino(f) ==> e == f,
{
    assert(e as u64 == f as u64 ==> e == f) by (bit_vector);
}

// ---------------------------------------------------------------------------
// What the kernel is told

/// Why the file system does not do what it is asked for.
#[derive(Debug, Clone, Copy, PartialEq, Eq, Structural)]
pub enum FsError {
    /// There is no such file or directory.
    NoEntry,
    /// It is a directory.
    IsDirectory,
    /// The file is too big.
    TooBig,
    /// It may not be done.
    NotPermitted,
    /// The directory is not known any more.
    Io,
    /// The type of the file is not known.
    UnknownType,
    /// The size of the file is negative.
    BadSize,
}

/// The kinds of files.
#[derive(Debug, Clone, Copy, PartialEq, Eq, Structural)]
pub enum FileKind {
    RegularFile,
    Directory,
    Symlink,
}

/// What is known of a file or directory. The time of the last change is given in seconds
/// and in further nanoseconds since the epoch.
#[derive(Debug, Clone, Copy, PartialEq, Eq, Structural)]
pub struct FileAttr {
    pub ino: u64,
    pub size: u64,
    pub blocks: u64,
    pub modified_s: u64,
    pub modified_ns: u64,
    pub kind: FileKind,
    pub perm: u16,
    pub nlink: u32,
    pub uid: u32,
    pub gid: u32,
    pub rdev: u32,
    pub flags: u32,
    pub blksize: u32,
}

/// The kind of file that a number stands for.
pub open spec fn kind_of(file_type_code: i32) -> Option<FileKind> {
    if file_type_code == 0 {
        Some(FileKind::RegularFile)
    } else if file_type_code == 1 {
        Some(FileKind::Directory)
    } else if 2 <= file_type_code <= 4 {
        Some(FileKind::Symlink)
    } else {
        None
    }
}

/// The kind of file that a number stands for.
pub fn file_type(file_type_code: i32) -> (r: Option<FileKind>)
    ensures
        r == kind_of(file_type_code),
{
    match file_type_code {
        0 => Some(FileKind::RegularFile),
        1 => Some(FileKind::Directory),
        2 | 3 | 4 => Some(FileKind::Symlink),
        _ => None,
    }
}

/// What is known of a directory that is none of a peer.
pub open spec fn dir_attr(ino: u64, blksize: u32, uid: u32, gid: u32) -> FileAttr {
    FileAttr {
        ino,
        size: 0,
        blocks: 0,
        modified_s: 0,
        modified_ns: 0,
        kind: FileKind::Directory,
        perm: 0o755,
        nlink: 0,
        uid,
        gid,
        rdev: 0,
        flags: 0,
        blksize,
    }
}

/// What is known of the root.
pub open spec fn root_attr(uid: u32, gid: u32) -> FileAttr {
    dir_attr(ROOT_ID, 512, uid, gid)
}

/// What is known of a folder.
pub open spec fn folder_attr(f: GrizolFolderView, uid: u32, gid: u32) -> FileAttr {
    dir_attr(top_dir_ino(f.id), 1024, uid, gid)
}

/// What is known of a file.
pub open spec fn file_attr(f: GrizolFileInfoView, uid: u32, gid: u32) -> Result<FileAttr, FsError> {
    match kind_of(f.file_info.file_type) {
        Some(kind) => Ok(
            FileAttr {
                ino: entry_ino(f.id),
                size: f.file_info.size as u64,
                blocks: 0,
                modified_s: f.file_info.modified_s as u64,
                modified_ns: f.file_info.modified_ns as u64,
                kind,
                perm: f.file_info.permissions as u16,
                nlink: 0,
                uid,
                gid,
                rdev: 0,
                flags: 0,
                blksize: f.file_info.block_size as u32,
            },
        ),
        None => Err(FsError::UnknownType),
    }
}

/// What is in a directory: its inode, where to go on after it, its kind where that is
/// known, and its name.
#[derive(Debug, PartialEq)]
pub struct DirEntry {
    pub ino: u64,
    pub offset: i64,
    pub kind: Option<FileKind>,
    pub name: String,
}

#[verifier::ext_equal]
pub struct DirEntryView {
    pub ino: u64,
    pub offset: i64,
    pub kind: Option<FileKind>,
    pub name: Seq<char>,
}

impl View for DirEntry {
    type V = DirEntryView;

    open spec fn view(&self) -> DirEntryView {
        DirEntryView { ino: self.ino, offset: self.offset, kind: self.kind, name: self.name@ }
    }
}

/// What comes from an offset on.
pub open spec fn from_offset(s: Seq<DirEntryView>, offset: i64) -> Seq<DirEntryView> {
    if (offset as usize) < s.len() {
        s.skip((offset as usize) as int)
    } else {
        Seq::empty()
    }
}

/// The folders as what is in the root.
pub open spec fn root_entries(folders: Seq<GrizolFolderView>) -> Seq<DirEntryView> {
    folders.map(
        |i: int, f: GrizolFolderView|
            DirEntryView {
                ino: top_dir_ino(f.id),
                offset: (i + 1) as i64,
                kind: Some(FileKind::Directory),
                name: f.folder.id,
            },
    )
}

/// The file is directly in a directory of a folder.
pub open spec fn is_in_dir(f: GrizolFileInfoView, folder: Seq<char>, dir: Seq<char>) -> bool {
    f.folder == folder && paths::is_directly_in(dir, f.file_info.name)
}

/// The files that are directly in a directory of a folder.
pub open spec fn dir_entries(files: Seq<GrizolFileInfoView>, folder: Seq<char>, dir: Seq<char>) -> Seq<
    DirEntryView,
>
    decreases files.len(),
{
    if files.len() == 0 {
        Seq::empty()
    } else {
        let before = dir_entries(files.drop_last(), folder, dir);
        let f = files.last();
        if is_in_dir(f, folder, dir) {
            before.push(
                DirEntryView {
                    ino: entry_ino(f.id),
                    offset: (before.len() + 1) as i64,
                    kind: kind_of(f.file_info.file_type),
                    name: paths::components_of(f.file_info.name).last(),
                },
            )
        } else {
            before
        }
    }
}

/// The nodes that are directly in a node.
pub open spec fn node_entries(s: Seq<FsNodeView>, path: Seq<Seq<char>>) -> Seq<DirEntryView>
    decreases s.len(),
{
    if s.len() == 0 {
        Seq::empty()
    } else {
        let before = node_entries(s.drop_last(), path);
        let n = s.last();
        if tree::is_child(n.path, path) {
            before.push(
                DirEntryView {
                    ino: n.id,
                    offset: (before.len() + 1) as i64,
                    kind: node_kind(n),
                    name: n.path.last(),
                },
            )
        } else {
            before
        }
    }
}

/// The kind of a node.
pub open spec fn node_kind(n: FsNodeView) -> Option<FileKind> {
    match n.file_type {
        FileTypeView::Folder(_) => Some(FileKind::Directory),
        FileTypeView::File(f) => kind_of(f.file_info.file_type),
    }
}

/// What is known of a node.
pub open spec fn node_attr(n: FsNodeView, uid: u32, gid: u32) -> Result<FileAttr, FsError> {
    match n.file_type {
        FileTypeView::Folder(f) => Ok(folder_attr(f, uid, gid)),
        FileTypeView::File(f) => file_attr(f, uid, gid),
    }
}

// ---------------------------------------------------------------------------
// Searching

/// Where the first one is that meets a condition.
pub open spec fn first_where<A>(s: Seq<A>, p: spec_fn(A) -> bool) -> Option<nat>
    decreases s.len(),
{
    if s.len() == 0 {
        None
    } else {
        match first_where(s.drop_last(), p) {
            Some(i) => Some(i),
            None => if p(s.last()) {
                Some((s.len() - 1) as nat)
            } else {
                None
            },
        }
    }
}

/// The first one that meets a condition, seen from what comes before it.
pub proof fn lemma_first<A>(s: Seq<A>, p: spec_fn(A) -> bool, i: int)
    requires
        0 <= i < s.len(),
        first_where(s.take(i), p) is None,
        p(s[i]),
    ensures
        first_where(s, p) == Some(i as nat),
    decreases s.len(),
{
    if i == s.len() - 1 {
        assert(s.take(i) =~= s.drop_last());
    } else {
        assert(s.drop_last().take(i) =~= s.take(i));
        assert(s.drop_last()[i] == s[i]);
        lemma_first(s.drop_last(), p, i);
    }
}

/// What the first one that meets a condition is.
pub proof fn lemma_first_where<A>(s: Seq<A>, p: spec_fn(A) -> bool)
    ensures
        match first_where(s, p) {
            Some(i) => i < s.len() && p(s[i as int]) && forall|j: int|
                0 <= j < i ==> !p(#[trigger] s[j]),
            None => forall|j: int| 0 <= j < s.len() ==> !p(#[trigger] s[j]),
        },
    decreases s.len(),
{
    if s.len() > 0 {
        let t = s.drop_last();
        lemma_first_where(t, p);
        assert forall|j: int| 0 <= j < t.len() implies t[j] == #[trigger] s[j] by {}
        match first_where(t, p) {
            Some(i) => {
                assert(t[i as int] == s[i as int]);
                assert forall|j: int| 0 <= j < i implies !p(#[trigger] s[j]) by {
                    assert(t[j] == s[j]);
                }
            },
            None => {
                assert forall|j: int| 0 <= j < t.len() implies !p(#[trigger] s[j]) by {
                    assert(t[j] == s[j]);
                }
            },
        }
    }
}

pub open spec fn folder_has_ino(ino: u64) -> spec_fn(GrizolFolderView) -> bool {
    |f: GrizolFolderView| top_dir_ino(f.id) == ino
}

pub open spec fn file_has_ino(ino: u64) -> spec_fn(GrizolFileInfoView) -> bool {
    |f: GrizolFileInfoView| entry_ino(f.id) == ino
}

pub open spec fn folder_has_name(name: Seq<char>) -> spec_fn(GrizolFolderView) -> bool {
    |f: GrizolFolderView| f.folder.id == name
}

/// The file has the name and is directly in the directory.
pub open spec fn file_has_name(name: Seq<char>, dir: Seq<char>) -> spec_fn(
    GrizolFileInfoView,
) -> bool {
    |f: GrizolFileInfoView|
        paths::file_name_of(f.file_info.name) == Some(name) && paths::is_directly_in(
            dir,
            f.file_info.name,
        )
}

pub(crate) fn find_folder(folders: &Vec<GrizolFolder>, ino: u64) -> (r: Option<usize>)
    requires
        tree::folder_ids_ok(crate::views(folders@)),
    ensures
        is_place(r, folders@.len(), first_where(crate::views(folders@), folder_has_ino(ino))),
{
    let ghost fs = crate::views(folders@);
    let ghost p = folder_has_ino(ino);
    let mut i: usize = 0;
    while i < folders.len()
        invariant
            i <= folders@.len(),
            fs == crate::views(folders@),
            p == folder_has_ino(ino),
            tree::folder_ids_ok(fs),
            first_where(fs.take(i as int), p) is None,
        decreases folders@.len() - i,
    {
        assert(fs[i as int] == folders@[i as int]@);
        if top_dir_id(folders[i].id) == ino {
            proof {
                lemma_first(fs, p, i as int);
            }
            return Some(i);
        }
        assert(fs.take(i + 1).drop_last() =~= fs.take(i as int));
        i += 1;
    }
    assert(fs.take(fs.len() as int) =~= fs);
    None
}

pub(crate) fn find_file(files: &Vec<GrizolFileInfo>, ino: u64) -> (r: Option<usize>)
    requires
        tree::file_ids_ok(crate::views(files@)),
    ensures
        is_place(r, files@.len(), first_where(crate::views(files@), file_has_ino(ino))),
{
    let ghost fs = crate::views(files@);
    let ghost p = file_has_ino(ino);
    let mut i: usize = 0;
    while i < files.len()
        invariant
            i <= files@.len(),
            fs == crate::views(files@),
            p == file_has_ino(ino),
            tree::file_ids_ok(fs),
            first_where(fs.take(i as int), p) is None,
        decreases files@.len() - i,
    {
        assert(fs[i as int] == files@[i as int]@);
        if entry_id(files[i].id) == ino {
            proof {
                lemma_first(fs, p, i as int);
            }
            return Some(i);
        }
        assert(fs.take(i + 1).drop_last() =~= fs.take(i as int));
        i += 1;
    }
    assert(fs.take(fs.len() as int) =~= fs);
    None
}

pub(crate) fn find_folder_named(folders: &Vec<GrizolFolder>, name: &str) -> (r: Option<usize>)
    ensures
        is_place(r, folders@.len(), first_where(crate::views(folders@), folder_has_name(name@))),
{
    let ghost fs = crate::views(folders@);
    let ghost p = folder_has_name(name@);
    let mut i: usize = 0;
    while i < folders.len()
        invariant
            i <= folders@.len(),
            fs == crate::views(folders@),
            p == folder_has_name(name@),
            first_where(fs.take(i as int), p) is None,
        decreases folders@.len() - i,
    {
        assert(fs[i as int] == folders@[i as int]@);
        if text::same_text(folders[i].folder.id.as_str(), name) {
            proof {
                lemma_first(fs, p, i as int);
            }
            return Some(i);
        }
        assert(fs.take(i + 1).drop_last() =~= fs.take(i as int));
        i += 1;
    }
    assert(fs.take(fs.len() as int) =~= fs);
    None
}

fn find_file_named(files: &Vec<GrizolFileInfo>, name: &str, dir: &str) -> (r: Option<usize>)
    ensures
        is_place(
            r,
            files@.len(),
            first_where(crate::views(files@), file_has_name(name@, dir@)),
        ),
{
    let ghost fs = crate::views(files@);
    let ghost p = file_has_name(name@, dir@);
    let mut i: usize = 0;
    while i < files.len()
        invariant
            i <= files@.len(),
            fs == crate::views(files@),
            p == file_has_name(name@, dir@),
            first_where(fs.take(i as int), p) is None,
        decreases files@.len() - i,
    {
        assert(fs[i as int] == files@[i as int]@);
        let path = files[i].file_info.name.as_str();
        let matches = match paths::file_name(path) {
            Some(n) => text::same_text(n.as_str(), name) && is_file_in_current_dir(
                dir,
                &files[i],
            ),
            None => false,
        };
        if matches {
            proof {
                lemma_first(fs, p, i as int);
            }
            return Some(i);
        }
        assert(fs.take(i + 1).drop_last() =~= fs.take(i as int));
        i += 1;
    }
    assert(fs.take(fs.len() as int) =~= fs);
    None
}

/// The place is the one that is looked for.
pub open spec fn is_place(r: Option<usize>, len: nat, place: Option<nat>) -> bool {
    match r {
        Some(i) => i < len && place == Some(i as nat),
        None => place is None,
    }
}

/// Whether the file is directly in the directory.
pub fn is_file_in_current_dir(base_dir: &str, file: &GrizolFileInfo) -> (r: bool)
    ensures
        r == paths::is_directly_in(base_dir@, file@.file_info.name),
{
    paths::name_in(base_dir, file.file_info.name.as_str()).is_some()
}

/// The folder that an inode is in.
pub open spec fn top_folder_of(
    ino: u64,
    folders: Seq<GrizolFolderView>,
    files: Seq<GrizolFileInfoView>,
) -> Option<Seq<char>> {
    if ino < ENTRIES_START {
        match first_where(folders, folder_has_ino(ino)) {
            Some(i) => Some(folders[i as int].folder.id),
            None => None,
        }
    } else {
        match first_where(files, file_has_ino(ino)) {
            Some(i) => Some(files[i as int].folder),
            None => None,
        }
    }
}

/// The directory within its folder that an inode stands for.
pub open spec fn base_dir_of(ino: u64, files: Seq<GrizolFileInfoView>) -> Option<Seq<char>> {
    if ino < ENTRIES_START {
        Some(Seq::empty())
    } else {
        match first_where(files, file_has_ino(ino)) {
            Some(i) => Some(files[i as int].file_info.name),
            None => None,
        }
    }
}

/// The folder that an inode is in.
pub fn top_folder(ino: u64, folders: &Vec<GrizolFolder>, files: &Vec<GrizolFileInfo>) -> (r: Option<
    String,
>)
    requires
        tree::folder_ids_ok(crate::views(folders@)),
        tree::file_ids_ok(crate::views(files@)),
    ensures
        crate::wire::view_option(r) == top_folder_of(
            ino,
            crate::views(folders@),
            crate::views(files@),
        ),
{
    if ino < ENTRIES_START {
        match find_folder(folders, ino) {
            Some(i) => Some(folders[i].folder.id.clone()),
            None => None,
        }
    } else {
        match find_file(files, ino) {
            Some(i) => Some(files[i].folder.clone()),
            None => None,
        }
    }
}

/// The directory within its folder that an inode stands for.
pub fn base_dir(ino: u64, files: &Vec<GrizolFileInfo>) -> (r: Option<String>)
    requires
        tree::file_ids_ok(crate::views(files@)),
    ensures
        crate::wire::view_option(r) == base_dir_of(ino, crate::views(files@)),
{
    if ino < ENTRIES_START {
        let empty = String::new();
        assert(empty@ =~= Seq::empty());
        Some(empty)
    } else {
        match find_file(files, ino) {
            Some(i) => Some(files[i].file_info.name.clone()),
            None => None,
        }
    }
}

// ---------------------------------------------------------------------------
// The file system

/// The file system: the folders and files as they were last read from the database, and
/// as a tree.
#[derive(Debug)]
pub struct GrizolFS {
    uid: u32,
    gid: u32,
    read_cache_size: u64,
    folders: Vec<GrizolFolder>,
    files: Vec<GrizolFileInfo>,
    fs_mem: GrizolFsMem,
}

#[verifier::ext_equal]
pub struct FsView {
    pub uid: u32,
    pub gid: u32,
    pub read_cache_size: u64,
    pub folders: Seq<GrizolFolderView>,
    pub files: Seq<GrizolFileInfoView>,
    pub tree: Seq<FsNodeView>,
}

impl View for GrizolFS {
    type V = FsView;

    closed spec fn view(&self) -> FsView {
        FsView {
            uid: self.uid,
            gid: self.gid,
            read_cache_size: self.read_cache_size,
            folders: crate::views(self.folders@),
            files: crate::views(self.files@),
            tree: self.fs_mem@,
        }
    }
}

/// What is known of an inode, by the tree.
pub open spec fn attr_in_tree(v: FsView, ino: u64) -> Result<FileAttr, FsError> {
    if ino == ROOT_ID {
        Ok(root_attr(v.uid, v.gid))
    } else {
        match tree::place_of_id(v.tree, ino) {
            Some(i) => node_attr(v.tree[i as int], v.uid, v.gid),
            None => Err(FsError::NoEntry),
        }
    }
}

/// What is known of an inode, by the lists.
pub open spec fn attr_in_lists(v: FsView, ino: u64) -> Result<FileAttr, FsError> {
    if ino == ROOT_ID {
        Ok(root_attr(v.uid, v.gid))
    } else if ino < ENTRIES_START {
        match first_where(v.folders, folder_has_ino(ino)) {
            Some(i) => Ok(folder_attr(v.folders[i as int], v.uid, v.gid)),
            None => Err(FsError::NoEntry),
        }
    } else {
        match first_where(v.files, file_has_ino(ino)) {
            Some(i) => file_attr(v.files[i as int], v.uid, v.gid),
            None => Err(FsError::NoEntry),
        }
    }
}

/// What is known of a name in a directory, by the tree.
pub open spec fn named_in_tree(v: FsView, parent_ino: u64, name: Seq<char>) -> Result<
    FileAttr,
    FsError,
> {
    match tree::place_of_id(v.tree, parent_ino) {
        Some(i) => match tree::place_of_path(v.tree, v.tree[i as int].path.push(name)) {
            Some(j) => node_attr(v.tree[j as int], v.uid, v.gid),
            None => Err(FsError::NoEntry),
        },
        None => Err(FsError::NoEntry),
    }
}

/// What is known of a name in a directory, by the lists.
pub open spec fn named_in_lists(v: FsView, parent_ino: u64, name: Seq<char>) -> Result<
    FileAttr,
    FsError,
> {
    if parent_ino == ROOT_ID {
        match first_where(v.folders, folder_has_name(name)) {
            Some(i) => Ok(folder_attr(v.folders[i as int], v.uid, v.gid)),
            None => Err(FsError::NoEntry),
        }
    } else {
        match base_dir_of(parent_ino, v.files) {
            Some(dir) => match first_where(v.files, file_has_name(name, dir)) {
                Some(i) => file_attr(v.files[i as int], v.uid, v.gid),
                None => Err(FsError::NoEntry),
            },
            None => Err(FsError::Io),
        }
    }
}

/// What is in a directory, by the tree.
pub open spec fn listed_in_tree(v: FsView, ino: u64, offset: i64) -> Result<
    Seq<DirEntryView>,
    FsError,
> {
    match tree::place_of_id(v.tree, ino) {
        Some(i) => Ok(from_offset(node_entries(v.tree, v.tree[i as int].path), offset)),
        None => Err(FsError::NoEntry),
    }
}

/// What is in a directory, by the lists.
pub open spec fn listed_in_lists(v: FsView, ino: u64, offset: i64) -> Result<
    Seq<DirEntryView>,
    FsError,
> {
    if ino == ROOT_ID {
        Ok(from_offset(root_entries(v.folders), offset))
    } else {
        match (top_folder_of(ino, v.folders, v.files), base_dir_of(ino, v.files)) {
            (Some(folder), Some(dir)) => Ok(from_offset(dir_entries(v.files, folder, dir), offset)),
            _ => Err(FsError::NoEntry),
        }
    }
}

/// The file that is to be read, by the tree.
pub open spec fn readable_in_tree(v: FsView, ino: u64) -> Result<GrizolFileInfoView, FsError> {
    if ino < ENTRIES_START {
        Err(FsError::IsDirectory)
    } else {
        match tree::place_of_id(v.tree, ino) {
            None => Err(FsError::NoEntry),
            Some(i) => match v.tree[i as int].file_type {
                FileTypeView::Folder(_) => Err(FsError::IsDirectory),
                FileTypeView::File(f) => if f.file_info.size < 0 {
                    Err(FsError::BadSize)
                } else if f.file_info.size > v.read_cache_size {
                    Err(FsError::TooBig)
                } else {
                    Ok(f)
                },
            },
        }
    }
}

/// The outcome is what it should be.
pub open spec fn is_listing(r: Result<Vec<DirEntry>, FsError>, s: Result<Seq<DirEntryView>, FsError>) -> bool {
    match s {
        Ok(entries) => r matches Ok(x) && crate::views(x@) == entries,
        Err(e) => r == Err::<Vec<DirEntry>, FsError>(e),
    }
}

proof fn lemma_from_offset_push(s: Seq<DirEntryView>, e: DirEntryView, offset: i64)
    ensures
        from_offset(s.push(e), offset) == if offset as usize <= s.len() {
            from_offset(s, offset).push(e)
        } else {
            Seq::empty()
        },
        offset as usize > s.len() ==> from_offset(s, offset) == Seq::<DirEntryView>::empty(),
{
    let n = (offset as usize) as int;
    if n < s.len() {
        assert(s.push(e).skip(n) =~= s.skip(n).push(e));
    } else if n == s.len() {
        assert(s.push(e).skip(n) =~= seq![e]);
        assert(Seq::<DirEntryView>::empty().push(e) =~= seq![e]);
    }
}

impl GrizolFS {
    /// The lists have inodes, and the tree is one.
    pub open spec fn wf(&self) -> bool {
        &&& tree::folder_ids_ok(self@.folders)
        &&& tree::file_ids_ok(self@.files)
        &&& tree::is_tree(self@.tree)
    }

    /// A file system without folders.
    pub fn new(config: &GrizolConfig) -> (r: Self)
        ensures
            r.wf(),
            r@ == (FsView {
                uid: config.uid,
                gid: config.gid,
                read_cache_size: config.read_cache_size,
                folders: Seq::empty(),
                files: Seq::empty(),
                tree: seq![tree::root_node()],
            }),
    {
        let r = GrizolFS {
            uid: config.uid,
            gid: config.gid,
            read_cache_size: config.read_cache_size,
            folders: Vec::new(),
            files: Vec::new(),
            fs_mem: GrizolFsMem::new(),
        };
        assert(r@.folders =~= Seq::empty());
        assert(r@.files =~= Seq::empty());
        r
    }

    /// Takes over folders and files that were read from the database. Gives back the files
    /// whose directory is not there. Nothing is done where one of them can have no inode.
    pub fn refresh(&mut self, folders: Vec<GrizolFolder>, files: Vec<GrizolFileInfo>) -> (r: Option<
        Vec<GrizolFileInfo>,
    >)
        requires
            old(self).wf(),
        ensures
            final(self).wf(),
            if tree::folder_ids_ok(crate::views(folders@)) && tree::file_ids_ok(
                crate::views(files@),
            ) {
                let filled = tree::with_files(
                    tree::with_folders(old(self)@.tree, crate::views(folders@)),
                    crate::views(files@),
                    0,
                );
                &&& r matches Some(rest)
                &&& crate::views(rest@) == filled.rest
                &&& final(self)@ == (FsView {
                    folders: crate::views(folders@),
                    files: crate::views(files@),
                    tree: filled.tree,
                    ..old(self)@
                })
            } else {
                r is None && final(self)@ == old(self)@
            },
    {
        if !ids_fit(&folders, &files) {
            return None;
        }
        self.fs_mem.insert_folders(&folders);
        let rest = self.fs_mem.insert_files(&files);
        self.folders = folders;
        self.files = files;
        Some(rest)
    }

    fn root_dir_attr(&self) -> (r: FileAttr)
        ensures
            r == root_attr(self@.uid, self@.gid),
    {
        self.attr_of_dir(ROOT_ID, 512)
    }

    fn attr_of_dir(&self, ino: u64, blksize: u32) -> (r: FileAttr)
        ensures
            r == dir_attr(ino, blksize, self@.uid, self@.gid),
    {
        FileAttr {
            ino,
            size: 0,
            blocks: 0,
            modified_s: 0,
            modified_ns: 0,
            kind: FileKind::Directory,
            perm: 0o755,
            nlink: 0,
            uid: self.uid,
            gid: self.gid,
            rdev: 0,
            flags: 0,
            blksize,
        }
    }

    /// What is known of a folder.
    pub fn attr_from_folder(&self, g_folder: &GrizolFolder) -> (r: FileAttr)
        requires
            has_top_dir_id(g_folder@.id),
        ensures
            r == folder_attr(g_folder@, self@.uid, self@.gid),
    {
        self.attr_of_dir(top_dir_id(g_folder.id), 1024)
    }

    /// What is known of a file.
    pub fn attr_from_file(&self, g_file: &GrizolFileInfo) -> (r: Result<FileAttr, FsError>)
        requires
            has_entry_id(g_file@.id),
        ensures
            r == file_attr(g_file@, self@.uid, self@.gid),
    {
        let file = &g_file.file_info;
        match file_type(file.file_type) {
            Some(kind) => Ok(
                FileAttr {
                    ino: entry_id(g_file.id),
                    size: #[verifier::truncate] (file.size as u64),
                    blocks: 0,
                    modified_s: #[verifier::truncate] (file.modified_s as u64),
                    modified_ns: #[verifier::truncate] (file.modified_ns as u64),
                    kind,
                    perm: #[verifier::truncate] (file.permissions as u16),
                    nlink: 0,
                    uid: self.uid,
                    gid: self.gid,
                    rdev: 0,
                    flags: 0,
                    blksize: #[verifier::truncate] (file.block_size as u32),
                },
            ),
            None => Err(FsError::UnknownType),
        }
    }

    fn attr_of_node(&self, i: usize) -> (r: Result<FileAttr, FsError>)
        requires
            self.wf(),
            0 < i < self@.tree.len(),
        ensures
            r == node_attr(self@.tree[i as int], self@.uid, self@.gid),
    {
        assert(tree::is_own_node(self@.tree[i as int]));
        match &self.fs_mem.node_at(i).file_type {
            GrizolFSFileType::Folder(f) => Ok(self.attr_from_folder(f)),
            GrizolFSFileType::File(f) => self.attr_from_file(f),
        }
    }

    /// What is known of an inode, by the tree.
    pub fn getattr_mem(&self, ino: u64) -> (r: Result<FileAttr, FsError>)
        requires
            self.wf(),
        ensures
            r == attr_in_tree(self@, ino),
    {
        if ino == ROOT_ID {
            return Ok(self.root_dir_attr());
        }
        proof {
            tree::lemma_place_of_id(self@.tree, ino);
        }
        match self.fs_mem.find_id(ino) {
            Some(i) => self.attr_of_node(i),
            None => Err(FsError::NoEntry),
        }
    }

    /// What is known of an inode, by the lists.
    pub fn getattr_db(&self, ino: u64) -> (r: Result<FileAttr, FsError>)
        requires
            self.wf(),
        ensures
            r == attr_in_lists(self@, ino),
    {
        if ino == ROOT_ID {
            Ok(self.root_dir_attr())
        } else if ino < ENTRIES_START {
            match find_folder(&self.folders, ino) {
                Some(i) => {
                    assert(has_top_dir_id(self@.folders[i as int].id));
                    Ok(self.attr_from_folder(&self.folders[i]))
                },
                None => Err(FsError::NoEntry),
            }
        } else {
            match find_file(&self.files, ino) {
                Some(i) => {
                    assert(has_entry_id(self@.files[i as int].id));
                    self.attr_from_file(&self.files[i])
                },
                None => Err(FsError::NoEntry),
            }
        }
    }

    /// What is known of a name in a directory, by the tree.
    pub fn lookup_mem(&self, parent_ino: u64, name: &str) -> (r: Result<FileAttr, FsError>)
        requires
            self.wf(),
        ensures
            r == named_in_tree(self@, parent_ino, name@),
    {
        match self.fs_mem.find_id(parent_ino) {
            Some(i) => match self.fs_mem.find_child(i, name) {
                Some(j) => {
                    proof {
                        let path = self@.tree[i as int].path.push(name@);
                        tree::lemma_place_of_path(self@.tree, path);
                        assert(self@.tree[j as int].path.len() > 0);
                        assert(self@.tree[0].path.len() == 0);
                    }
                    self.attr_of_node(j)
                },
                None => Err(FsError::NoEntry),
            },
            None => Err(FsError::NoEntry),
        }
    }

    /// What is known of a name in a directory, by the lists.
    pub fn lookup_db(&self, parent_ino: u64, name: &str) -> (r: Result<FileAttr, FsError>)
        requires
            self.wf(),
        ensures
            r == named_in_lists(self@, parent_ino, name@),
    {
        if parent_ino == ROOT_ID {
            match find_folder_named(&self.folders, name) {
                Some(i) => {
                    assert(has_top_dir_id(self@.folders[i as int].id));
                    Ok(self.attr_from_folder(&self.folders[i]))
                },
                None => Err(FsError::NoEntry),
            }
        } else {
            match base_dir(parent_ino, &self.files) {
                Some(dir) => match find_file_named(&self.files, name, dir.as_str()) {
                    Some(i) => {
                        assert(has_entry_id(self@.files[i as int].id));
                        self.attr_from_file(&self.files[i])
                    },
                    None => Err(FsError::NoEntry),
                },
                None => Err(FsError::Io),
            }
        }
    }

    /// What is in a directory from an offset on, by the tree.
    pub fn readdir_mem(&self, ino: u64, offset: i64) -> (r: Result<Vec<DirEntry>, FsError>)
        requires
            self.wf(),
        ensures
            is_listing(r, listed_in_tree(self@, ino, offset)),
    {
        let ghost s = self@.tree;
        let parent = match self.fs_mem.find_id(ino) {
            Some(i) => i,
            None => {
                return Err(FsError::NoEntry);
            },
        };
        let ghost path = s[parent as int].path;
        #[verifier::truncate]
        let from: usize = offset as usize;
        let mut out: Vec<DirEntry> = Vec::new();
        let mut count: usize = 0;
        let mut i: usize = 0;
        assert(crate::views(out@) =~= from_offset(node_entries(s.take(0), path), offset));
        while i < self.fs_mem.len()
            invariant
                i <= s.len(),
                s == self@.tree,
                s == self.fs_mem@,
                from == offset as usize,
                count == node_entries(s.take(i as int), path).len(),
                count <= i,
                parent < s.len(),
                path == s[parent as int].path,
                crate::views(out@) == from_offset(node_entries(s.take(i as int), path), offset),
            decreases s.len() - i,
        {
            let ghost before = node_entries(s.take(i as int), path);
            assert(s.take(i + 1).drop_last() =~= s.take(i as int));
            assert(s.take(i + 1).last() == s[i as int]);
            let node = self.fs_mem.node_at(i);
            if self.fs_mem.is_child_of(i, parent) {
                let entry = DirEntry {
                    ino: node.id,
                    offset: #[verifier::truncate] ((count + 1) as i64),
                    kind: kind_of_node(node),
                    name: node.path[node.path.len() - 1].clone(),
                };
                proof {
                    assert(s[i as int].path.last() == entry.name@);
                    lemma_from_offset_push(before, entry@, offset);
                    crate::lemma_views_push(out@, entry);
                }
                if count >= from {
                    out.push(entry);
                }
                count += 1;
            }
            i += 1;
        }
        assert(s.take(s.len() as int) =~= s);
        Ok(out)
    }

    /// What is in a directory from an offset on, by the lists.
    pub fn readdir_db(&self, ino: u64, offset: i64) -> (r: Result<Vec<DirEntry>, FsError>)
        requires
            self.wf(),
        ensures
            is_listing(r, listed_in_lists(self@, ino, offset)),
    {
        if ino == ROOT_ID {
            return Ok(self.readdir_root(offset));
        }
        let folder = match top_folder(ino, &self.folders, &self.files) {
            Some(x) => x,
            None => {
                return Err(FsError::NoEntry);
            },
        };
        let dir = match base_dir(ino, &self.files) {
            Some(x) => x,
            None => {
                return Err(FsError::NoEntry);
            },
        };
        let ghost fs = self@.files;
        #[verifier::truncate]
        let from: usize = offset as usize;
        let mut out: Vec<DirEntry> = Vec::new();
        let mut count: usize = 0;
        let mut i: usize = 0;
        assert(crate::views(out@) =~= from_offset(
            dir_entries(fs.take(0), folder@, dir@),
            offset,
        ));
        while i < self.files.len()
            invariant
                i <= self.files@.len(),
                self.wf(),
                fs == self@.files,
                fs == crate::views(self.files@),
                from == offset as usize,
                count == dir_entries(fs.take(i as int), folder@, dir@).len(),
                count <= i,
                crate::views(out@) == from_offset(
                    dir_entries(fs.take(i as int), folder@, dir@),
                    offset,
                ),
            decreases self.files@.len() - i,
        {
            let ghost before = dir_entries(fs.take(i as int), folder@, dir@);
            let file = &self.files[i];
            assert(fs.take(i + 1).drop_last() =~= fs.take(i as int));
            assert(fs.take(i + 1).last() == fs[i as int]);
            assert(fs[i as int] == file@);
            if file.folder == folder {
                if let Some(name) = paths::name_in(dir.as_str(), file.file_info.name.as_str()) {
                    let entry = DirEntry {
                        ino: entry_id(file.id),
                        offset: #[verifier::truncate] ((count + 1) as i64),
                        kind: file_type(file.file_info.file_type),
                        name,
                    };
                    proof {
                        lemma_from_offset_push(before, entry@, offset);
                        crate::lemma_views_push(out@, entry);
                    }
                    if count >= from {
                        out.push(entry);
                    }
                    count += 1;
                }
            }
            i += 1;
        }
        assert(fs.take(fs.len() as int) =~= fs);
        Ok(out)
    }

    fn readdir_root(&self, offset: i64) -> (r: Vec<DirEntry>)
        requires
            self.wf(),
        ensures
            crate::views(r@) == from_offset(root_entries(self@.folders), offset),
    {
        let ghost fs = self@.folders;
        #[verifier::truncate]
        let from: usize = offset as usize;
        let mut out: Vec<DirEntry> = Vec::new();
        let mut i: usize = 0;
        assert(crate::views(out@) =~= from_offset(root_entries(fs.take(0)), offset));
        while i < self.folders.len()
            invariant
                i <= self.folders@.len(),
                self.wf(),
                fs == self@.folders,
                fs == crate::views(self.folders@),
                from == offset as usize,
                crate::views(out@) == from_offset(root_entries(fs.take(i as int)), offset),
            decreases self.folders@.len() - i,
        {
            let ghost before = root_entries(fs.take(i as int));
            let el = &self.folders[i];
            assert(fs[i as int] == el@);
            let entry = DirEntry {
                ino: top_dir_id(el.id),
                offset: #[verifier::truncate] ((i + 1) as i64),
                kind: Some(FileKind::Directory),
                name: el.folder.id.clone(),
            };
            proof {
                assert(root_entries(fs.take(i + 1)) =~= before.push(entry@));
                lemma_from_offset_push(before, entry@, offset);
                crate::lemma_views_push(out@, entry);
            }
            if i >= from {
                out.push(entry);
            }
            i += 1;
        }
        assert(fs.take(fs.len() as int) =~= fs);
        out
    }

    /// The file that is to be read, by the tree.
    pub fn read_mem(&self, ino: u64) -> (r: Result<GrizolFileInfo, FsError>)
        requires
            self.wf(),
        ensures
            match readable_in_tree(self@, ino) {
                Ok(f) => r matches Ok(x) && x@ == f,
                Err(e) => r == Err::<GrizolFileInfo, FsError>(e),
            },
    {
        if ino < ENTRIES_START {
            return Err(FsError::IsDirectory);
        }
        match self.fs_mem.find_id(ino) {
            None => Err(FsError::NoEntry),
            Some(i) => match &self.fs_mem.node_at(i).file_type {
                GrizolFSFileType::Folder(_) => Err(FsError::IsDirectory),
                GrizolFSFileType::File(f) => {
                    if f.file_info.size < 0 {
                        Err(FsError::BadSize)
                    } else if f.file_info.size as u64 > self.read_cache_size {
                        Err(FsError::TooBig)
                    } else {
                        Ok(f.clone())
                    }
                },
            },
        }
    }
}

fn kind_of_node(node: &FsNode) -> (r: Option<FileKind>)
    ensures
        r == node_kind(node@),
{
    match &node.file_type {
        GrizolFSFileType::Folder(_) => Some(FileKind::Directory),
        GrizolFSFileType::File(f) => file_type(f.file_info.file_type),
    }
}

fn ids_fit(folders: &Vec<GrizolFolder>, files: &Vec<GrizolFileInfo>) -> (r: bool)
    ensures
        r == (tree::folder_ids_ok(crate::views(folders@)) && tree::file_ids_ok(
            crate::views(files@),
        )),
{
    let ghost ds = crate::views(folders@);
    let ghost fs = crate::views(files@);
    let mut i: usize = 0;
    while i < folders.len()
        invariant
            i <= folders@.len(),
            ds == crate::views(folders@),
            forall|j: int| 0 <= j < i ==> has_top_dir_id((#[trigger] ds[j]).id),
        decreases folders@.len() - i,
    {
        assert(ds[i as int] == folders@[i as int]@);
        #[verifier::truncate]
        let n: u64 = folders[i].id as u64;
        if n >= ENTRIES_START - TOP_DIRS_START {
            return false;
        }
        i += 1;
    }
    let mut k: usize = 0;
    while k < files.len()
        invariant
            k <= files@.len(),
            fs == crate::views(files@),
            forall|j: int| 0 <= j < k ==> has_entry_id((#[trigger] fs[j]).id),
        decreases files@.len() - k,
    {
        assert(fs[k as int] == files@[k as int]@);
        #[verifier::truncate]
        let n: u64 = files[k].id as u64;
        if n > u64::MAX - ENTRIES_START {
            return false;
        }
        k += 1;
    }
    true
}

// ---------------------------------------------------------------------------
// The tree and the lists

/// No two folders have the same number.
pub open spec fn folder_numbers_differ(folders: Seq<GrizolFolderView>) -> bool {
    forall|i: int, j: int|
        0 <= i < j < folders.len() ==> (#[trigger] folders[i]).id != (#[trigger] folders[j]).id
}

/// No two files have the same number.
pub open spec fn file_numbers_differ(files: Seq<GrizolFileInfoView>) -> bool {
    forall|i: int, j: int|
        0 <= i < j < files.len() ==> (#[trigger] files[i]).id != (#[trigger] files[j]).id
}

/// Folders and files were put into the tree `s`, all files in one of the folders, and all of
/// them had a place.
pub open spec fn is_filled(v: FsView, s: Seq<FsNodeView>) -> bool {
    let filled = tree::with_files(tree::with_folders(s, v.folders), v.files, 0);
    &&& tree::is_tree(s)
    &&& v.tree == filled.tree
    &&& filled.rest.len() == 0
    &&& tree::folder_ids_ok(v.folders)
    &&& tree::file_ids_ok(v.files)
    &&& tree::folder_names_differ(v.folders)
    &&& tree::file_paths_differ(v.files)
    &&& folder_numbers_differ(v.folders)
    &&& file_numbers_differ(v.files)
    &&& forall|i: int|
        0 <= i < v.files.len() ==> tree::in_folders(v.folders, (#[trigger] v.files[i]).folder)
}

/// The folder or the file is one of those in the lists.
pub open spec fn is_in_lists(v: FsView, n: FsNodeView) -> bool {
    ||| n == tree::root_node()
    ||| exists|i: int| 0 <= i < v.folders.len() && n == tree::folder_node(#[trigger] v.folders[i])
    ||| exists|i: int| 0 <= i < v.files.len() && n == tree::file_node(#[trigger] v.files[i])
}

/// A folder is where its name says.
proof fn lemma_folder_found(v: FsView, s: Seq<FsNodeView>, i: int)
    requires
        is_filled(v, s),
        0 <= i < v.folders.len(),
    ensures
        tree::with_folders(s, v.folders).contains(tree::folder_node(v.folders[i])),
{
    let t = tree::with_folders(s, v.folders);
    let p = seq![v.folders[i].folder.id];
    tree::lemma_put_folders(s, v.folders);
    assert(tree::has_path(t, p));
    let k = choose|k: int| 0 <= k < t.len() && (#[trigger] t[k]).path == p;
    assert(t.contains(t[k]));
    assert(tree::is_listed(v.folders, t[k]));
    let j = choose|j: int|
        0 <= j < v.folders.len() && t[k] == tree::folder_node(#[trigger] v.folders[j]);
    assert(tree::folder_node(v.folders[j]).path[0] == v.folders[j].folder.id);
    assert(v.folders[j].folder.id == v.folders[i].folder.id);
    assert(i == j);
}

/// What is in the tree is in the lists, or was there before and is in none of the folders.
proof fn lemma_filled(v: FsView, s: Seq<FsNodeView>)
    requires
        is_filled(v, s),
    ensures
        tree::is_tree(v.tree),
        forall|n: FsNodeView| is_in_lists(v, n) ==> #[trigger] v.tree.contains(n),
        forall|n: FsNodeView| #[trigger]
            v.tree.contains(n) ==> is_in_lists(v, n) || (s.contains(n) && n.path.len() > 0
                && !tree::is_listed(v.folders, n)),
{
    let t = tree::with_folders(s, v.folders);
    let r = tree::with_files(t, v.files, 0);
    tree::lemma_put_folders(s, v.folders);
    tree::law_every_file_is_there(s, v.folders, v.files);
    assert forall|n: FsNodeView| is_in_lists(v, n) implies #[trigger] v.tree.contains(n) by {
        if n == tree::root_node() {
            assert(t[0] == n);
            assert(t.contains(n));
        } else if exists|i: int|
            0 <= i < v.folders.len() && n == tree::folder_node(#[trigger] v.folders[i]) {
            let i = choose|i: int|
                0 <= i < v.folders.len() && n == tree::folder_node(#[trigger] v.folders[i]);
            lemma_folder_found(v, s, i);
            assert(n.path[0] == v.folders[i].folder.id);
            assert(tree::is_listed(v.folders, n));
        } else {
            let i = choose|i: int|
                0 <= i < v.files.len() && n == tree::file_node(#[trigger] v.files[i]);
            assert(tree::is_settled(r, v.files[i]));
            assert(!r.rest.contains(v.files[i]));
        }
    }
    assert forall|n: FsNodeView| #[trigger] v.tree.contains(n) implies is_in_lists(v, n) || (
    s.contains(n) && n.path.len() > 0 && !tree::is_listed(v.folders, n)) by {
        tree::lemma_nodes_of_files(t, v.files, 0, n);
        if t.contains(n) && !tree::is_listed(v.folders, n) && n.path.len() == 0 {
            let k = choose|k: int| 0 <= k < s.len() && s[k] == n;
            assert(s[0].path =~= n.path);
            assert(k == 0);
        }
    }
}

/// The tree and the lists give the same answer on every inode, unless the tree still has it
/// from a folder that is not listed any more.
pub proof fn law_modes_agree(v: FsView, s: Seq<FsNodeView>, ino: u64)
    requires
        is_filled(v, s),
        forall|i: int|
            0 < i < s.len() && (#[trigger] s[i]).id == ino ==> tree::is_listed(v.folders, s[i]),
    ensures
        attr_in_tree(v, ino) == attr_in_lists(v, ino),
{
    lemma_filled(v, s);
    tree::lemma_place_of_id(v.tree, ino);
    lemma_first_where(v.folders, folder_has_ino(ino));
    lemma_first_where(v.files, file_has_ino(ino));
    if ino != ROOT_ID {
        match tree::place_of_id(v.tree, ino) {
            Some(k) => {
                let n = v.tree[k as int];
                assert(v.tree.contains(n));
                if !is_in_lists(v, n) {
                    let i = choose|i: int| 0 <= i < s.len() && s[i] == n;
                    assert(s[i].id == ino);
                }
                if exists|i: int| 0 <= i < v.folders.len() && n == tree::folder_node(
                    #[trigger] v.folders[i],
                ) {
                    let i = choose|i: int|
                        0 <= i < v.folders.len() && n == tree::folder_node(
                            #[trigger] v.folders[i],
                        );
                    assert(has_top_dir_id(v.folders[i].id));
                    assert(folder_has_ino(ino)(v.folders[i]));
                    let j = first_where(v.folders, folder_has_ino(ino))->0 as int;
                    assert(has_top_dir_id(v.folders[j].id));
                    let a = v.folders[i].id;
                    let b = v.folders[j].id;
                    assert(a as u64 == b as u64 ==> a == b) by (bit_vector);
                    assert(i == j);
                } else {
                    let i = choose|i: int|
                        0 <= i < v.files.len() && n == tree::file_node(#[trigger] v.files[i]);
                    assert(has_entry_id(v.files[i].id));
                    assert(file_has_ino(ino)(v.files[i]));
                    let j = first_where(v.files, file_has_ino(ino))->0 as int;
                    assert(has_entry_id(v.files[j].id));
                    let a = v.files[i].id;
                    let b = v.files[j].id;
                    assert(a as u64 == b as u64 ==> a == b) by (bit_vector);
                    assert(i == j);
                }
            },
            None => {
                if ino < ENTRIES_START {
                    if first_where(v.folders, folder_has_ino(ino)) is Some {
                        let j = first_where(v.folders, folder_has_ino(ino))->0 as int;
                        let n = tree::folder_node(v.folders[j]);
                        assert(is_in_lists(v, n));
                        assert(v.tree.contains(n));
                        let k = choose|k: int| 0 <= k < v.tree.len() && v.tree[k] == n;
                        assert(v.tree[k].id == ino);
                    }
                } else {
                    if first_where(v.files, file_has_ino(ino)) is Some {
                        let j = first_where(v.files, file_has_ino(ino))->0 as int;
                        let n = tree::file_node(v.files[j]);
                        assert(is_in_lists(v, n));
                        assert(v.tree.contains(n));
                        let k = choose|k: int| 0 <= k < v.tree.len() && v.tree[k] == n;
                        assert(v.tree[k].id == ino);
                    }
                }
            },
        }
    }
}

} // verus!
