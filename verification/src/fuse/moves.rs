//! Moving files and directories, and reading files.

use vstd::prelude::*;
use crate::bep_state;
use crate::fuse;
use crate::fuse::tree;
use crate::fuse::tree::{FileTypeView, FsNodeView, GrizolFSFileType};
use crate::fuse::{FsError, FsView, GrizolFS};
use crate::paths;
use crate::syncthing::{FileInfo, FileInfoView};
use crate::text;
use crate::types::{GrizolFileInfo, GrizolFileInfoView};
use crate::wire;

verus! {

/// A file that is to be moved, and where to.
#[derive(Debug, PartialEq)]
pub struct Move {
    pub orig_folder: String,
    pub orig_file_path: String,
    pub dest_folder: String,
    pub dest_file_path: String,
}

#[verifier::ext_equal]
pub struct MoveView {
    pub orig_folder: Seq<char>,
    pub orig_file_path: Seq<char>,
    pub dest_folder: Seq<char>,
    pub dest_file_path: Seq<char>,
}

impl View for Move {
    type V = MoveView;

    open spec fn view(&self) -> MoveView {
        MoveView {
            orig_folder: self.orig_folder@,
            orig_file_path: self.orig_file_path@,
            dest_folder: self.dest_folder@,
            dest_file_path: self.dest_file_path@,
        }
    }
}

/// A name below a directory of a folder, or in the folder itself.
pub open spec fn path_below(dir: Option<Seq<char>>, name: Seq<char>) -> Seq<char> {
    match dir {
        Some(d) => d + "/"@ + name,
        None => name,
    }
}

fn make_path_below(dir: &Option<String>, name: &str) -> (r: String)
    ensures
        r@ == path_below(wire::view_option(*dir), name@),
{
    match dir {
        Some(d) => {
            let mut out = d.clone();
            out.append("/");
            out.append(name);
            out
        },
        None => name.to_owned(),
    }
}

// ---------------------------------------------------------------------------
// By the lists

/// A directory: the folder it is in and its path there. The root is in no folder, and a
/// folder has no path in itself.
#[derive(Debug)]
pub struct Dirs {
    pub top_folder: Option<String>,
    pub dir: Option<String>,
}

#[verifier::ext_equal]
pub struct DirsView {
    pub top_folder: Option<Seq<char>>,
    pub dir: Option<Seq<char>>,
}

impl View for Dirs {
    type V = DirsView;

    open spec fn view(&self) -> DirsView {
        DirsView {
            top_folder: wire::view_option(self.top_folder),
            dir: wire::view_option(self.dir),
        }
    }
}

/// The directory that an inode stands for.
pub open spec fn dirs_of(v: FsView, ino: u64) -> Option<DirsView> {
    if ino == fuse::ROOT_ID {
        Some(DirsView { top_folder: None, dir: None })
    } else if ino < fuse::ENTRIES_START {
        match fuse::first_where(v.folders, fuse::folder_has_ino(ino)) {
            Some(i) => Some(
                DirsView { top_folder: Some(v.folders[i as int].folder.id), dir: None },
            ),
            None => None,
        }
    } else {
        match fuse::first_where(v.files, fuse::file_has_ino(ino)) {
            Some(i) => Some(
                DirsView {
                    top_folder: Some(v.files[i as int].folder),
                    dir: Some(v.files[i as int].file_info.name),
                },
            ),
            None => None,
        }
    }
}

/// The path within a folder, which is empty for the folder itself.
pub open spec fn or_empty(dir: Option<Seq<char>>) -> Seq<char> {
    match dir {
        Some(d) => d,
        None => Seq::empty(),
    }
}

/// The file has the name in the directory.
pub open spec fn file_is(dirs: DirsView, name: Seq<char>) -> spec_fn(GrizolFileInfoView) -> bool {
    |f: GrizolFileInfoView|
        dirs.top_folder == Some(f.folder) && f.file_info.name == path_below(dirs.dir, name)
            && paths::is_directly_in(or_empty(dirs.dir), f.file_info.name)
}

/// What is to be moved, by the lists; nothing where one of the directories, the file or
/// the folder it goes to is not there.
pub open spec fn move_in_lists(
    v: FsView,
    orig_parent: u64,
    orig_name: Seq<char>,
    dest_parent: u64,
    dest_name: Seq<char>,
) -> Option<MoveView> {
    match (dirs_of(v, orig_parent), dirs_of(v, dest_parent)) {
        (Some(orig), Some(dest)) => match (
            fuse::first_where(v.files, file_is(orig, orig_name)),
            dest.top_folder,
        ) {
            (Some(i), Some(folder)) => if fuse::first_where(
                v.folders,
                fuse::folder_has_name(folder),
            ) is Some {
                Some(
                    MoveView {
                        orig_folder: v.files[i as int].folder,
                        orig_file_path: v.files[i as int].file_info.name,
                        dest_folder: folder,
                        dest_file_path: path_below(dest.dir, dest_name),
                    },
                )
            } else {
                None
            },
            _ => None,
        },
        _ => None,
    }
}

fn same_option(a: &Option<String>, b: &String) -> (r: bool)
    ensures
        r == (wire::view_option(*a) == Some(b@)),
{
    match a {
        Some(x) => *x == *b,
        None => false,
    }
}

impl GrizolFS {
    fn dirs(&self, ino: u64) -> (r: Option<Dirs>)
        requires
            self.wf(),
        ensures
            match dirs_of(self@, ino) {
                Some(d) => r matches Some(x) && x@ == d,
                None => r is None,
            },
    {
        if ino == fuse::ROOT_ID {
            Some(Dirs { top_folder: None, dir: None })
        } else if ino < fuse::ENTRIES_START {
            match fuse::find_folder(&self.folders, ino) {
                Some(i) => Some(
                    Dirs { top_folder: Some(self.folders[i].folder.id.clone()), dir: None },
                ),
                None => None,
            }
        } else {
            match fuse::find_file(&self.files, ino) {
                Some(i) => Some(
                    Dirs {
                        top_folder: Some(self.files[i].folder.clone()),
                        dir: Some(self.files[i].file_info.name.clone()),
                    },
                ),
                None => None,
            }
        }
    }

    fn find_in_dirs(&self, dirs: &Dirs, name: &str) -> (r: Option<usize>)
        ensures
            fuse::is_place(
                r,
                self@.files.len(),
                fuse::first_where(self@.files, file_is(dirs@, name@)),
            ),
    {
        let ghost fs = self@.files;
        let ghost p = file_is(dirs@, name@);
        let path = make_path_below(&dirs.dir, name);
        let dir = match &dirs.dir {
            Some(d) => d.clone(),
            None => String::new(),
        };
        assert(dir@ =~= or_empty(dirs@.dir));
        let mut i: usize = 0;
        while i < self.files.len()
            invariant
                i <= self.files@.len(),
                fs == self@.files,
                fs == crate::views(self.files@),
                p == file_is(dirs@, name@),
                path@ == path_below(dirs@.dir, name@),
                dir@ == or_empty(dirs@.dir),
                fuse::first_where(fs.take(i as int), p) is None,
            decreases self.files@.len() - i,
        {
            let file = &self.files[i];
            assert(fs[i as int] == file@);
            if same_option(&dirs.top_folder, &file.folder) && file.file_info.name == path
                && fuse::is_file_in_current_dir(dir.as_str(), file) {
                proof {
                    fuse::lemma_first(fs, p, i as int);
                }
                return Some(i);
            }
            assert(fs.take(i + 1).drop_last() =~= fs.take(i as int));
            i += 1;
        }
        assert(fs.take(fs.len() as int) =~= fs);
        None
    }

    /// Decides what is to be moved, by the lists.
    pub fn rename_db(
        &self,
        orig_parent_dir_ino: u64,
        orig_name: &str,
        dest_parent_dir_ino: u64,
        dest_name: &str,
    ) -> (r: Result<Move, FsError>)
        requires
            self.wf(),
        ensures
            match move_in_lists(
                self@,
                orig_parent_dir_ino,
                orig_name@,
                dest_parent_dir_ino,
                dest_name@,
            ) {
                Some(m) => r matches Ok(x) && x@ == m,
                None => r == Err::<Move, FsError>(FsError::NoEntry),
            },
    {
        let orig = match self.dirs(orig_parent_dir_ino) {
            Some(x) => x,
            None => {
                return Err(FsError::NoEntry);
            },
        };
        let dest = match self.dirs(dest_parent_dir_ino) {
            Some(x) => x,
            None => {
                return Err(FsError::NoEntry);
            },
        };
        let file = match self.find_in_dirs(&orig, orig_name) {
            Some(i) => &self.files[i],
            None => {
                return Err(FsError::NoEntry);
            },
        };
        let folder = match &dest.top_folder {
            Some(x) => x,
            None => {
                return Err(FsError::NoEntry);
            },
        };
        if fuse::find_folder_named(&self.folders, folder.as_str()).is_none() {
            return Err(FsError::NoEntry);
        }
        Ok(
            Move {
                orig_folder: file.folder.clone(),
                orig_file_path: file.file_info.name.clone(),
                dest_folder: folder.clone(),
                dest_file_path: make_path_below(&dest.dir, dest_name),
            },
        )
    }
}

// ---------------------------------------------------------------------------
// By the tree

/// The name of something in a node, within its folder.
pub open spec fn name_below(n: FsNodeView, name: Seq<char>) -> Seq<char> {
    match n.file_type {
        FileTypeView::File(f) => path_below(Some(f.file_info.name), name),
        FileTypeView::Folder(_) => name,
    }
}

/// The node is a file with a name directly in a node.
pub open spec fn is_file_in(parent: Seq<Seq<char>>, name: Seq<char>) -> spec_fn(FsNodeView) -> bool {
    |n: FsNodeView|
        tree::is_child(n.path, parent) && match n.file_type {
            FileTypeView::File(f) => f.file_info.name == name,
            FileTypeView::Folder(_) => false,
        }
}

/// The file of a node.
pub open spec fn file_in(n: FsNodeView) -> GrizolFileInfoView {
    n.file_type->File_0
}

/// The file is moved: what its name starts with becomes another.
pub open spec fn moved(f: GrizolFileInfoView, orig: Seq<char>, dest: Seq<char>) -> MoveView {
    MoveView {
        orig_folder: f.folder,
        orig_file_path: f.file_info.name,
        dest_folder: f.folder,
        dest_file_path: dest + f.file_info.name.skip(orig.len() as int),
    }
}

/// What is to be moved, by the tree: a file and all that is in it.
pub open spec fn moves_in_tree(
    v: FsView,
    orig_parent: u64,
    orig_name: Seq<char>,
    dest_parent: u64,
    dest_name: Seq<char>,
) -> Result<Seq<MoveView>, FsError> {
    if orig_parent == fuse::ROOT_ID {
        Err(FsError::NotPermitted)
    } else {
        match (tree::place_of_id(v.tree, orig_parent), tree::place_of_id(v.tree, dest_parent)) {
            (Some(o), Some(d)) => {
                let orig = name_below(v.tree[o as int], orig_name);
                let dest = name_below(v.tree[d as int], dest_name);
                match fuse::first_where(v.tree, is_file_in(v.tree[o as int].path, orig)) {
                    Some(i) => Ok(
                        tree::post_order(v.tree, v.tree[i as int]).map_values(
                            |n: FsNodeView| moved(file_in(n), orig, dest),
                        ),
                    ),
                    None => Err(FsError::NoEntry),
                }
            },
            _ => Err(FsError::Io),
        }
    }
}

/// All that is in a file is files, whose names start with its name.
pub proof fn lemma_names_start(s: Seq<FsNodeView>, n: FsNodeView, k: int)
    requires
        tree::is_tree(s),
        tree::is_own_node(n),
        n.file_type is File,
        0 <= k < tree::post_order(s, n).len(),
    ensures
        ({
            let x = tree::post_order(s, n)[k];
            let name = file_in(x).file_info.name;
            let orig = file_in(n).file_info.name;
            &&& x.file_type is File
            &&& orig.len() <= name.len()
            &&& name.take(orig.len() as int) == orig
            &&& file_in(x).folder == file_in(n).folder
            &&& name == orig || name[orig.len() as int] == '/'
        }),
{
    let x = tree::post_order(s, n)[k];
    let orig = file_in(n).file_info.name;
    let a = paths::slash_parts(orig);
    tree::lemma_post_order_below(s, n, k);
    paths::lemma_joined_parts(orig);
    if k < tree::post_order(s, n).len() - 1 {
        let i = choose|i: int| 0 <= i < s.len() && s[i] == x;
        assert(i > 0);
        assert(tree::is_own_node(s[i]));
        assert(n.path.len() >= 2);
        let name = file_in(x).file_info.name;
        let b = paths::slash_parts(name);
        paths::lemma_joined_parts(name);
        let rest = b.skip(a.len() as int);
        assert(x.path.take(n.path.len() as int) == n.path);
        assert(x.path[0] == file_in(x).folder);
        assert(n.path[0] == x.path.take(n.path.len() as int)[0]);
        assert(b.take(a.len() as int) =~= a) by {
            assert forall|j: int| 0 <= j < a.len() implies b.take(a.len() as int)[j] == a[j] by {
                assert(x.path[j + 1] == b[j]);
                assert(n.path[j + 1] == a[j]);
                assert(x.path.take(n.path.len() as int)[j + 1] == x.path[j + 1]);
            }
        }
        assert(a + rest =~= b);
        paths::lemma_joined_add(a, rest);
        assert(name == orig + seq!['/'] + paths::slash_joined(rest));
        assert(name.take(orig.len() as int) =~= orig);
        assert(name[orig.len() as int] == '/');
    } else {
        assert(x == n);
        assert(orig.take(orig.len() as int) =~= orig);
    }
}

/// A file that is moved, and all that is in it, keep their places below it.
pub proof fn law_moved_together(
    v: FsView,
    orig_parent: u64,
    orig_name: Seq<char>,
    dest_parent: u64,
    dest_name: Seq<char>,
    k: int,
)
    requires
        tree::is_tree(v.tree),
        moves_in_tree(v, orig_parent, orig_name, dest_parent, dest_name) is Ok,
        0 <= k < moves_in_tree(v, orig_parent, orig_name, dest_parent, dest_name)->Ok_0.len(),
    ensures
        ({
            let moves = moves_in_tree(v, orig_parent, orig_name, dest_parent, dest_name)->Ok_0;
            let o = tree::place_of_id(v.tree, orig_parent)->0;
            let d = tree::place_of_id(v.tree, dest_parent)->0;
            let orig = name_below(v.tree[o as int], orig_name);
            let dest = name_below(v.tree[d as int], dest_name);
            &&& exists|below: Seq<char>|
                moves[k].orig_file_path == orig + below && moves[k].dest_file_path == dest + below
                    && (below.len() == 0 || below[0] == '/')
            &&& moves[k].dest_folder == moves[k].orig_folder
            &&& moves.last().orig_file_path == orig
            &&& moves.last().dest_file_path == dest
        }),
{
    let s = v.tree;
    let moves = moves_in_tree(v, orig_parent, orig_name, dest_parent, dest_name)->Ok_0;
    let o = tree::place_of_id(s, orig_parent)->0;
    let d = tree::place_of_id(s, dest_parent)->0;
    let orig = name_below(s[o as int], orig_name);
    let dest = name_below(s[d as int], dest_name);
    let p = is_file_in(s[o as int].path, orig);
    fuse::lemma_first_where(s, p);
    let n = s[fuse::first_where(s, p)->0 as int];
    let walk = tree::post_order(s, n);
    lemma_names_start(s, n, k);
    let name = file_in(walk[k]).file_info.name;
    let below = name.skip(orig.len() as int);
    assert(name =~= orig + below);
    assert(moves[k].dest_file_path == dest + below);
    assert(moves[k].orig_file_path == orig + below && moves[k].dest_file_path == dest + below && (
    below.len() == 0 || below[0] == '/'));
    assert(walk.last() == n);
    assert(moves.last() == moved(file_in(n), orig, dest));
    assert(orig.skip(orig.len() as int) =~= Seq::empty());
    assert(moves.last().dest_file_path =~= dest);
}

fn make_name_below(file_type: &GrizolFSFileType, name: &str) -> (r: String)
    ensures
        forall|n: FsNodeView|
            n.file_type == file_type@ ==> r@ == #[trigger] name_below(n, name@),
{
    match file_type {
        GrizolFSFileType::File(f) => {
            let mut out = f.file_info.name.clone();
            out.append("/");
            out.append(name);
            out
        },
        GrizolFSFileType::Folder(_) => name.to_owned(),
    }
}

/// A text with what it starts with replaced.
fn with_start(name: &str, start: usize, other: &str) -> (r: String)
    requires
        start <= name@.len(),
    ensures
        r@ == other@ + name@.skip(start as int),
{
    let mut out = other.to_owned();
    let n: usize = name.unicode_len();
    let rest = name.substring_char(start, n);
    assert(rest@ =~= name@.skip(start as int));
    out.append(rest);
    out
}

impl GrizolFS {
    fn find_in_node(&self, parent: usize, name: &String) -> (r: Option<usize>)
        requires
            parent < self@.tree.len(),
        ensures
            fuse::is_place(
                r,
                self@.tree.len(),
                fuse::first_where(
                    self@.tree,
                    is_file_in(self@.tree[parent as int].path, name@),
                ),
            ),
    {
        let ghost s = self@.tree;
        let ghost p = is_file_in(s[parent as int].path, name@);
        let mut i: usize = 0;
        while i < self.fs_mem.len()
            invariant
                i <= s.len(),
                parent < s.len(),
                s == self@.tree,
                s == self.fs_mem@,
                p == is_file_in(s[parent as int].path, name@),
                fuse::first_where(s.take(i as int), p) is None,
            decreases s.len() - i,
        {
            let matches = match &self.fs_mem.node_at(i).file_type {
                GrizolFSFileType::File(f) => f.file_info.name == *name,
                GrizolFSFileType::Folder(_) => false,
            };
            if matches && self.fs_mem.is_child_of(i, parent) {
                proof {
                    fuse::lemma_first(s, p, i as int);
                }
                return Some(i);
            }
            assert(s.take(i + 1).drop_last() =~= s.take(i as int));
            i += 1;
        }
        assert(s.take(s.len() as int) =~= s);
        None
    }

    /// Decides what is to be moved, by the tree.
    pub fn rename_mem(
        &self,
        orig_parent_dir_ino: u64,
        orig_name: &str,
        dest_parent_dir_ino: u64,
        dest_name: &str,
    ) -> (r: Result<Vec<Move>, FsError>)
        requires
            self.wf(),
        ensures
            match moves_in_tree(
                self@,
                orig_parent_dir_ino,
                orig_name@,
                dest_parent_dir_ino,
                dest_name@,
            ) {
                Ok(moves) => r matches Ok(x) && crate::views(x@) == moves,
                Err(e) => r == Err::<Vec<Move>, FsError>(e),
            },
    {
        if orig_parent_dir_ino == fuse::ROOT_ID {
            return Err(FsError::NotPermitted);
        }
        let orig_parent = match self.fs_mem.find_id(orig_parent_dir_ino) {
            Some(i) => i,
            None => {
                return Err(FsError::Io);
            },
        };
        let dest_parent = match self.fs_mem.find_id(dest_parent_dir_ino) {
            Some(i) => i,
            None => {
                return Err(FsError::Io);
            },
        };
        let ghost s = self@.tree;
        let orig = make_name_below(&self.fs_mem.node_at(orig_parent).file_type, orig_name);
        let dest = make_name_below(&self.fs_mem.node_at(dest_parent).file_type, dest_name);
        assert(orig@ == name_below(s[orig_parent as int], orig_name@));
        assert(dest@ == name_below(s[dest_parent as int], dest_name@));
        let file = match self.find_in_node(orig_parent, &orig) {
            Some(i) => i,
            None => {
                return Err(FsError::NoEntry);
            },
        };
        let ghost n = s[file as int];
        let ghost op = |n: FsNodeView| moved(file_in(n), orig@, dest@);
        proof {
            fuse::lemma_first_where(s, is_file_in(s[orig_parent as int].path, orig@));
            assert(file > 0);
            assert(tree::is_own_node(n));
        }
        let places = self.fs_mem.traverse_post(file);
        let ghost walk = tree::post_order(s, n);
        let start: usize = orig.as_str().unicode_len();
        let mut out: Vec<Move> = Vec::new();
        let mut i: usize = 0;
        assert(crate::views(out@) =~= walk.take(0).map_values(op));
        while i < places.len()
            invariant
                i <= places@.len(),
                self.wf(),
                s == self@.tree,
                s == self.fs_mem@,
                tree::is_own_node(n),
                n.file_type is File,
                file_in(n).file_info.name == orig@,
                start == orig@.len(),
                walk == tree::post_order(s, n),
                tree::are_places(s, places@),
                walk == tree::nodes_at(s, places@),
                op == |n: FsNodeView| moved(file_in(n), orig@, dest@),
                crate::views(out@) == walk.take(i as int).map_values(op),
            decreases places@.len() - i,
        {
            proof {
                lemma_names_start(s, n, i as int);
                assert(walk[i as int] == s[places@[i as int] as int]);
            }
            if let GrizolFSFileType::File(f) = &self.fs_mem.node_at(places[i]).file_type {
                let m = Move {
                    orig_folder: f.folder.clone(),
                    orig_file_path: f.file_info.name.clone(),
                    dest_folder: f.folder.clone(),
                    dest_file_path: with_start(f.file_info.name.as_str(), start, dest.as_str()),
                };
                proof {
                    assert(m@ == op(walk[i as int]));
                    crate::lemma_views_push(out@, m);
                    assert(walk.take(i + 1).map_values(op) =~= walk.take(i as int).map_values(
                        op,
                    ).push(op(walk[i as int])));
                }
                out.push(m);
            }
            i += 1;
        }
        assert(walk.take(walk.len() as int) =~= walk);
        Ok(out)
    }
}

// ---------------------------------------------------------------------------
// Carrying it out

/// What has been done of a move.
#[derive(Debug, Clone, Copy, PartialEq, Eq, Structural)]
pub enum MoveStage {
    /// The file is being read from the database.
    Reading,
    /// It is being copied on the storage backends.
    Copying,
    /// It is being written under its new name.
    Inserting,
    /// The database is told where it is kept.
    Locating,
    /// The old name is being removed from the database.
    Deleting,
    /// The old file is being removed from the storage backends.
    Removing,
    Done,
}

/// What has come of the last action.
#[derive(Debug)]
pub enum MoveReply {
    /// The file in the database, where it is there.
    File(Option<FileInfo>),
    /// The storage backends and where the file is kept on them, or why not.
    Copied(Result<Vec<(String, String)>, String>),
    /// It was done.
    Did,
    /// Whether the old file was removed, or why not.
    Removed(Result<(), String>),
}

/// What is to be done next.
#[derive(Debug)]
pub enum MoveAction {
    /// Copy the file on the storage backends.
    Copy,
    /// Write this file into the folder it goes to.
    Insert(FileInfo),
    /// Write where the file is kept.
    WriteLocations(Vec<(String, String)>),
    /// Remove the old name from the database.
    Delete,
    /// Remove the old file from the storage backends.
    Remove,
    /// Nothing: it is moved.
    Finish,
    /// Nothing: it could not be moved, and others are to be tried.
    GiveUp(String),
    /// Nothing: it could not be moved.
    Fail(String),
}

/// Carries out a move, step by step. The first step is to read the file.
#[derive(Debug)]
pub struct MoveFlow {
    stage: MoveStage,
    inmem: bool,
    dest_file_path: String,
    file: Option<FileInfo>,
    copied: Result<Vec<(String, String)>, String>,
}

#[verifier::ext_equal]
pub struct MoveFlowView {
    pub stage: MoveStage,
    pub inmem: bool,
    pub dest_file_path: Seq<char>,
    pub file: Option<FileInfoView>,
    /// The storage backends and where the file is kept on them, once it was copied, or why
    /// it was not.
    pub copied: Result<Seq<(Seq<char>, Seq<char>)>, Seq<char>>,
}

/// What copying gave, as plain values.
pub open spec fn copied_view(copied: Result<Vec<(String, String)>, String>) -> Result<
    Seq<(Seq<char>, Seq<char>)>,
    Seq<char>,
> {
    match copied {
        Ok(locations) => Ok(bep_state::pair_views(locations@)),
        Err(m) => Err(m@),
    }
}

impl View for MoveFlow {
    type V = MoveFlowView;

    closed spec fn view(&self) -> MoveFlowView {
        MoveFlowView {
            stage: self.stage,
            inmem: self.inmem,
            dest_file_path: self.dest_file_path@,
            file: wire::view_option(self.file),
            copied: copied_view(self.copied),
        }
    }
}

/// The reply is one that can come at this stage.
pub open spec fn move_fits(v: MoveFlowView, reply: MoveReply) -> bool {
    match v.stage {
        MoveStage::Reading => reply is File,
        MoveStage::Copying => reply is Copied && v.file is Some,
        MoveStage::Removing => reply is Removed,
        MoveStage::Done => false,
        _ => reply is Did,
    }
}

/// What the flow is after a reply, and what is done then.
pub open spec fn is_move_step(
    before: MoveFlowView,
    reply: MoveReply,
    after: MoveFlowView,
    action: MoveAction,
) -> bool {
    let at = |stage: MoveStage| MoveFlowView { stage, ..before };
    match before.stage {
        MoveStage::Reading => match reply->File_0 {
            None => after == at(MoveStage::Done) && (action matches MoveAction::Fail(m) && m@
                == "The file is not in the index"@),
            Some(f) => after == (MoveFlowView {
                stage: MoveStage::Copying,
                file: Some(f@),
                ..before
            }) && action is Copy,
        },
        MoveStage::Copying => match reply->Copied_0 {
            Err(m) => if before.inmem {
                after == at(MoveStage::Done) && action == MoveAction::GiveUp(m)
            } else {
                &&& after == (MoveFlowView {
                    stage: MoveStage::Inserting,
                    file: None,
                    copied: copied_view(reply->Copied_0),
                    ..before
                })
                &&& action matches MoveAction::Insert(f)
                &&& f@ == (FileInfoView { name: before.dest_file_path, ..before.file->0 })
            },
            Ok(_) => {
                &&& after == (MoveFlowView {
                    stage: MoveStage::Inserting,
                    file: None,
                    copied: copied_view(reply->Copied_0),
                    ..before
                })
                &&& action matches MoveAction::Insert(f)
                &&& f@ == (FileInfoView { name: before.dest_file_path, ..before.file->0 })
            },
        },
        MoveStage::Inserting => match before.copied {
            Ok(locations) => {
                &&& after == (MoveFlowView {
                    stage: MoveStage::Locating,
                    copied: Ok(Seq::empty()),
                    ..before
                })
                &&& action matches MoveAction::WriteLocations(l)
                &&& bep_state::pair_views(l@) == locations
            },
            Err(reason) => {
                &&& after == (MoveFlowView {
                    stage: MoveStage::Done,
                    copied: Ok(Seq::empty()),
                    ..before
                })
                &&& action matches MoveAction::Fail(m)
                &&& m@ == reason
            },
        },
        MoveStage::Locating => after == at(MoveStage::Deleting) && action is Delete,
        MoveStage::Deleting => after == at(MoveStage::Removing) && action is Remove,
        MoveStage::Removing => after == at(MoveStage::Done) && match reply->Removed_0 {
            Ok(_) => action is Finish,
            Err(m) => if before.inmem {
                action == MoveAction::GiveUp(m)
            } else {
                action == MoveAction::Fail(m)
            },
        },
        MoveStage::Done => true,
    }
}

impl MoveFlow {
    /// Starts a move that was decided by the tree or by the lists.
    pub fn new(m: &Move, inmem: bool) -> (r: Self)
        ensures
            r@ == (MoveFlowView {
                stage: MoveStage::Reading,
                inmem,
                dest_file_path: m@.dest_file_path,
                file: None,
                copied: Ok(Seq::empty()),
            }),
    {
        let r = MoveFlow {
            stage: MoveStage::Reading,
            inmem,
            dest_file_path: m.dest_file_path.clone(),
            file: None,
            copied: Ok(Vec::new()),
        };
        assert(r@.copied->Ok_0 =~= Seq::empty());
        r
    }

    /// Decides what is to be done next, given what has come of the last action.
    pub fn next(&mut self, reply: MoveReply) -> (r: MoveAction)
        requires
            move_fits(old(self)@, reply),
        ensures
            is_move_step(old(self)@, reply, final(self)@, r),
    {
        match reply {
            MoveReply::File(file) => match file {
                None => {
                    self.stage = MoveStage::Done;
                    MoveAction::Fail("The file is not in the index".to_owned())
                },
                Some(f) => {
                    self.file = Some(f);
                    self.stage = MoveStage::Copying;
                    MoveAction::Copy
                },
            },
            MoveReply::Copied(copied) => {
                if self.inmem {
                    if let Err(m) = copied {
                        self.stage = MoveStage::Done;
                        return MoveAction::GiveUp(m);
                    }
                }
                self.copied = copied;
                self.stage = MoveStage::Inserting;
                let mut file: Option<FileInfo> = None;
                std::mem::swap(&mut file, &mut self.file);
                match file {
                    Some(f) => {
                        let mut renamed = f;
                        renamed.name = self.dest_file_path.clone();
                        MoveAction::Insert(renamed)
                    },
                    None => MoveAction::Finish,
                }
            },
            MoveReply::Removed(removed) => {
                self.stage = MoveStage::Done;
                match removed {
                    Ok(_) => MoveAction::Finish,
                    Err(m) => if self.inmem {
                        MoveAction::GiveUp(m)
                    } else {
                        MoveAction::Fail(m)
                    },
                }
            },
            MoveReply::Did => match self.stage {
                MoveStage::Inserting => {
                    let mut copied: Result<Vec<(String, String)>, String> = Ok(Vec::new());
                    std::mem::swap(&mut copied, &mut self.copied);
                    assert(self@.copied->Ok_0 =~= Seq::empty());
                    match copied {
                        Ok(locations) => {
                            self.stage = MoveStage::Locating;
                            MoveAction::WriteLocations(locations)
                        },
                        Err(m) => {
                            self.stage = MoveStage::Done;
                            MoveAction::Fail(m)
                        },
                    }
                },
                MoveStage::Locating => {
                    self.stage = MoveStage::Deleting;
                    MoveAction::Delete
                },
                _ => {
                    self.stage = MoveStage::Removing;
                    MoveAction::Remove
                },
            },
        }
    }
}

/// How far a move has come.
pub open spec fn move_progress(stage: MoveStage) -> nat {
    match stage {
        MoveStage::Reading => 0,
        MoveStage::Copying => 1,
        MoveStage::Inserting => 2,
        MoveStage::Locating => 3,
        MoveStage::Deleting => 4,
        MoveStage::Removing => 5,
        MoveStage::Done => 6,
    }
}

/// A move comes to an end. What is at the old place is removed only after the file was
/// copied and written under its new name.
pub proof fn law_move_flow(
    before: MoveFlowView,
    reply: MoveReply,
    after: MoveFlowView,
    action: MoveAction,
)
    requires
        move_fits(before, reply),
        is_move_step(before, reply, after, action),
    ensures
        move_progress(after.stage) > move_progress(before.stage),
        action is Remove ==> before.stage == MoveStage::Deleting,
        action is Delete ==> before.stage == MoveStage::Locating,
        action is WriteLocations ==> before.stage == MoveStage::Inserting && before.copied is Ok,
        action is Insert ==> before.stage == MoveStage::Copying,
{
}

// ---------------------------------------------------------------------------
// Reading

/// What has been done to read a file.
#[derive(Debug, Clone, Copy, PartialEq, Eq, Structural)]
pub enum ReadStage {
    /// It is being looked up whether the file is in the read cache.
    Checking,
    /// The database is told to make room in the read cache.
    Freeing,
    /// Other files are being removed from the read cache.
    Removing,
    /// The file is being copied into the read cache.
    Copying,
    /// The database is told that the file is in the read cache and in use.
    Touching,
    /// The file is being read.
    Reading,
    Done,
}

/// What has come of the last action.
#[derive(Debug)]
pub enum ReadReply {
    InCache(bool),
    /// The folders and names of the files that have to leave the read cache.
    Freed(Vec<(String, String)>),
    Did(Result<(), String>),
    Data(Result<Vec<u8>, String>),
}

/// What is to be done next.
#[derive(Debug)]
pub enum ReadAction {
    /// Make room for this many bytes.
    Free(u64),
    /// Remove these files from the read cache.
    Remove(Vec<(String, String)>),
    /// Copy the file into the read cache.
    Copy,
    /// Tell the database that the file is in the read cache and in use.
    Touch,
    /// Read the file in the read cache.
    Read,
    /// Nothing: this is what was read.
    Reply(Vec<u8>),
    /// Nothing: the file could not be read.
    Fail(String),
}

/// The reply is one that can come at this stage.
pub open spec fn read_fits(stage: ReadStage, reply: ReadReply) -> bool {
    match stage {
        ReadStage::Checking => reply is InCache,
        ReadStage::Freeing => reply is Freed,
        ReadStage::Reading => reply is Data,
        ReadStage::Done => false,
        _ => reply is Did,
    }
}

/// The stage after a reply, and what is done then.
pub open spec fn read_step(stage: ReadStage, size: u64, reply: ReadReply) -> (ReadStage, ReadAction) {
    match reply {
        ReadReply::InCache(yes) => if yes {
            (ReadStage::Touching, ReadAction::Touch)
        } else {
            (ReadStage::Freeing, ReadAction::Free(size))
        },
        ReadReply::Freed(files) => (ReadStage::Removing, ReadAction::Remove(files)),
        ReadReply::Data(data) => match data {
            Ok(d) => (ReadStage::Done, ReadAction::Reply(d)),
            Err(m) => (ReadStage::Done, ReadAction::Fail(m)),
        },
        ReadReply::Did(outcome) => match outcome {
            Err(m) => (ReadStage::Done, ReadAction::Fail(m)),
            Ok(_) => match stage {
                ReadStage::Removing => (ReadStage::Copying, ReadAction::Copy),
                ReadStage::Copying => (ReadStage::Touching, ReadAction::Touch),
                _ => (ReadStage::Reading, ReadAction::Read),
            },
        },
    }
}

/// Reads a file through the read cache, step by step. The first step is to look up
/// whether it is there.
#[derive(Debug)]
pub struct ReadFlow {
    stage: ReadStage,
    size: u64,
}

impl ReadFlow {
    pub closed spec fn stage(&self) -> ReadStage {
        self.stage
    }

    pub closed spec fn size(&self) -> u64 {
        self.size
    }

    /// Starts to read a file.
    pub fn new(file: &GrizolFileInfo) -> (r: Self)
        requires
            file@.file_info.size >= 0,
        ensures
            r.stage() == ReadStage::Checking,
            r.size() == file@.file_info.size,
    {
        ReadFlow { stage: ReadStage::Checking, size: file.file_info.size as u64 }
    }

    /// Decides what is to be done next, given what has come of the last action.
    pub fn next(&mut self, reply: ReadReply) -> (r: ReadAction)
        requires
            read_fits(old(self).stage(), reply),
        ensures
            final(self).size() == old(self).size(),
            (final(self).stage(), r) == read_step(old(self).stage(), old(self).size(), reply),
    {
        match reply {
            ReadReply::InCache(yes) => if yes {
                self.stage = ReadStage::Touching;
                ReadAction::Touch
            } else {
                self.stage = ReadStage::Freeing;
                ReadAction::Free(self.size)
            },
            ReadReply::Freed(files) => {
                self.stage = ReadStage::Removing;
                ReadAction::Remove(files)
            },
            ReadReply::Data(data) => {
                self.stage = ReadStage::Done;
                match data {
                    Ok(d) => ReadAction::Reply(d),
                    Err(m) => ReadAction::Fail(m),
                }
            },
            ReadReply::Did(outcome) => match outcome {
                Err(m) => {
                    self.stage = ReadStage::Done;
                    ReadAction::Fail(m)
                },
                Ok(_) => match self.stage {
                    ReadStage::Removing => {
                        self.stage = ReadStage::Copying;
                        ReadAction::Copy
                    },
                    ReadStage::Copying => {
                        self.stage = ReadStage::Touching;
                        ReadAction::Touch
                    },
                    _ => {
                        self.stage = ReadStage::Reading;
                        ReadAction::Read
                    },
                },
            },
        }
    }
}

/// A file is read only from the read cache: what leads to reading is that it is there, or
/// that it was copied there.
pub proof fn law_read_from_cache(stage: ReadStage, size: u64, reply: ReadReply)
    requires
        read_fits(stage, reply),
    ensures
        ({
            let next = read_step(stage, size, reply).0;
            &&& next == ReadStage::Reading ==> stage == ReadStage::Touching
            &&& next == ReadStage::Touching ==> reply == ReadReply::InCache(true) || stage
                == ReadStage::Copying && reply->Did_0 is Ok
            &&& next == ReadStage::Copying ==> stage == ReadStage::Removing
            &&& next == ReadStage::Removing ==> stage == ReadStage::Freeing
        }),
{
}

} // verus!
