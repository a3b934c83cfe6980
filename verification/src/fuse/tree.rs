//! The folders and files as a tree.

use std::collections::VecDeque;
use vstd::prelude::*;
use crate::fuse;
use crate::paths;
use crate::syncthing::Folder;
use crate::types::{GrizolFileInfo, GrizolFileInfoView, GrizolFolder, GrizolFolderView};
use crate::wire::Message;

verus! {

/// A file, which may be a directory, or a folder.
#[derive(Debug)]
pub enum GrizolFSFileType {
    File(GrizolFileInfo),
    Folder(GrizolFolder),
}

#[verifier::ext_equal]
pub enum FileTypeView {
    File(GrizolFileInfoView),
    Folder(GrizolFolderView),
}

impl View for GrizolFSFileType {
    type V = FileTypeView;

    open spec fn view(&self) -> FileTypeView {
        match *self {
            GrizolFSFileType::File(f) => FileTypeView::File(f@),
            GrizolFSFileType::Folder(f) => FileTypeView::Folder(f@),
        }
    }
}

/// A node of the tree: its inode, and the names on the way to it.
#[derive(Debug)]
pub struct FsNode {
    pub id: u64,
    pub path: Vec<String>,
    pub file_type: GrizolFSFileType,
}

#[verifier::ext_equal]
pub struct FsNodeView {
    pub id: u64,
    pub path: Seq<Seq<char>>,
    pub file_type: FileTypeView,
}

impl View for FsNode {
    type V = FsNodeView;

    open spec fn view(&self) -> FsNodeView {
        FsNodeView { id: self.id, path: crate::views(self.path@), file_type: self.file_type@ }
    }
}

/// Why a file was not put into the tree.
#[derive(Debug)]
pub enum GrizolFSErr {
    /// The directory it is in is not there.
    NoParent(GrizolFileInfo),
}

/// The way to a file.
pub open spec fn file_path(f: GrizolFileInfoView) -> Seq<Seq<char>> {
    seq![f.folder] + paths::slash_parts(f.file_info.name)
}

/// The node of a file.
pub open spec fn file_node(f: GrizolFileInfoView) -> FsNodeView {
    FsNodeView {
        id: fuse::entry_ino(f.id),
        path: file_path(f),
        file_type: FileTypeView::File(f),
    }
}

/// The node of a folder.
pub open spec fn folder_node(f: GrizolFolderView) -> FsNodeView {
    FsNodeView {
        id: fuse::top_dir_ino(f.id),
        path: seq![f.folder.id],
        file_type: FileTypeView::Folder(f),
    }
}

/// The node that all folders are in.
pub open spec fn root_node() -> FsNodeView {
    FsNodeView {
        id: fuse::ROOT_ID,
        path: Seq::empty(),
        file_type: FileTypeView::Folder(GrizolFolderView { folder: Folder::initial(), id: 1 }),
    }
}

/// The path is the other one or leads further.
pub open spec fn is_at_or_below(path: Seq<Seq<char>>, top: Seq<Seq<char>>) -> bool {
    top.len() <= path.len() && path.take(top.len() as int) == top
}

/// The path leads one step further than the other one.
pub open spec fn is_child(path: Seq<Seq<char>>, parent: Seq<Seq<char>>) -> bool {
    path.len() == parent.len() + 1 && path.drop_last() == parent
}

/// There is a node at the end of the path.
pub open spec fn has_path(s: Seq<FsNodeView>, path: Seq<Seq<char>>) -> bool {
    exists|i: int| 0 <= i < s.len() && (#[trigger] s[i]).path == path
}

/// The node is that of its folder or file.
pub open spec fn is_own_node(n: FsNodeView) -> bool {
    match n.file_type {
        FileTypeView::File(f) => fuse::has_entry_id(f.id) && n == file_node(f),
        FileTypeView::Folder(f) => fuse::has_top_dir_id(f.id) && n == folder_node(f),
    }
}

/// The nodes make a tree: the root comes first, paths differ, and each node but the root
/// is in another one.
pub open spec fn is_tree(s: Seq<FsNodeView>) -> bool {
    &&& s.len() > 0
    &&& s[0] == root_node()
    &&& forall|i: int| 0 < i < s.len() ==> is_own_node(#[trigger] s[i])
    &&& forall|i: int| 0 < i < s.len() ==> has_path(s, (#[trigger] s[i]).path.drop_last())
    &&& forall|i: int, j: int|
        0 <= i < j < s.len() ==> (#[trigger] s[i]).path != (#[trigger] s[j]).path
}

/// The tree without a node and what is in it.
pub open spec fn without(s: Seq<FsNodeView>, path: Seq<Seq<char>>) -> Seq<FsNodeView>
    decreases s.len(),
{
    if s.len() == 0 {
        Seq::empty()
    } else {
        let before = without(s.drop_last(), path);
        if is_at_or_below(s.last().path, path) {
            before
        } else {
            before.push(s.last())
        }
    }
}

/// The tree with a node, which takes the place of one with the same path and what is in
/// that one.
pub open spec fn with_node(s: Seq<FsNodeView>, n: FsNodeView) -> Seq<FsNodeView> {
    without(s, n.path).push(n)
}

/// Where the node with an inode is: the one that was put in last.
pub open spec fn place_of_id(s: Seq<FsNodeView>, id: u64) -> Option<nat>
    decreases s.len(),
{
    if s.len() == 0 {
        None
    } else if s.last().id == id {
        Some((s.len() - 1) as nat)
    } else {
        place_of_id(s.drop_last(), id)
    }
}

/// Where the node at the end of a path is.
pub open spec fn place_of_path(s: Seq<FsNodeView>, path: Seq<Seq<char>>) -> Option<nat>
    decreases s.len(),
{
    if s.len() == 0 {
        None
    } else if s.last().path == path {
        Some((s.len() - 1) as nat)
    } else {
        place_of_path(s.drop_last(), path)
    }
}

pub proof fn lemma_place_of_path(s: Seq<FsNodeView>, path: Seq<Seq<char>>)
    ensures
        match place_of_path(s, path) {
            Some(i) => i < s.len() && s[i as int].path == path,
            None => !has_path(s, path),
        },
    decreases s.len(),
{
    if s.len() > 0 && s.last().path != path {
        lemma_place_of_path(s.drop_last(), path);
        if place_of_path(s, path) is None {
            assert forall|i: int| 0 <= i < s.len() implies (#[trigger] s[i]).path != path by {
                if i < s.len() - 1 {
                    assert(s.drop_last()[i] == s[i]);
                }
            }
        }
    }
}

pub proof fn lemma_place_of_id(s: Seq<FsNodeView>, id: u64)
    ensures
        match place_of_id(s, id) {
            Some(i) => i < s.len() && s[i as int].id == id,
            None => forall|i: int| 0 <= i < s.len() ==> (#[trigger] s[i]).id != id,
        },
    decreases s.len(),
{
    if s.len() > 0 && s.last().id != id {
        lemma_place_of_id(s.drop_last(), id);
        if place_of_id(s, id) is None {
            assert forall|i: int| 0 <= i < s.len() implies (#[trigger] s[i]).id != id by {
                if i < s.len() - 1 {
                    assert(s.drop_last()[i] == s[i]);
                }
            }
        }
    }
}

/// The nodes that stay are those whose paths do not lead to what is taken out.
pub proof fn lemma_without(s: Seq<FsNodeView>, path: Seq<Seq<char>>)
    ensures
        without(s, path).len() <= s.len(),
        forall|k: int|
            0 <= k < without(s, path).len() ==> exists|i: int|
                k <= i < s.len() && #[trigger] without(s, path)[k] == #[trigger] s[i]
                    && !is_at_or_below(s[i].path, path),
        forall|i: int|
            0 <= i < s.len() && !is_at_or_below((#[trigger] s[i]).path, path) ==> exists|k: int|
                0 <= k <= i && k < without(s, path).len() && #[trigger] without(s, path)[k]
                    == s[i],
    decreases s.len(),
{
    if s.len() > 0 {
        let t = s.drop_last();
        let w = without(s, path);
        let v = without(t, path);
        lemma_without(t, path);
        assert forall|k: int| 0 <= k < w.len() implies exists|i: int|
            k <= i < s.len() && #[trigger] w[k] == #[trigger] s[i] && !is_at_or_below(
                s[i].path,
                path,
            ) by {
            if k < v.len() {
                assert(v[k] == w[k]);
                let i = choose|i: int|
                    k <= i < t.len() && #[trigger] v[k] == #[trigger] t[i] && !is_at_or_below(
                        t[i].path,
                        path,
                    );
                assert(s[i] == t[i]);
            } else {
                assert(w[k] == s[s.len() - 1]);
            }
        }
        assert forall|i: int|
            0 <= i < s.len() && !is_at_or_below((#[trigger] s[i]).path, path) implies exists|k: int|
            0 <= k <= i && k < w.len() && #[trigger] w[k] == s[i] by {
            if i < t.len() {
                assert(t[i] == s[i]);
                let k = choose|k: int|
                    0 <= k <= i && k < v.len() && #[trigger] v[k] == t[i];
                assert(w[k] == v[k]);
            } else {
                assert(w[v.len() as int] == s[i]);
            }
        }
    }
}

/// Paths still differ when nodes are taken out.
proof fn lemma_without_distinct(s: Seq<FsNodeView>, path: Seq<Seq<char>>)
    requires
        forall|i: int, j: int|
            0 <= i < j < s.len() ==> (#[trigger] s[i]).path != (#[trigger] s[j]).path,
    ensures
        forall|i: int, j: int|
            0 <= i < j < without(s, path).len() ==> (#[trigger] without(s, path)[i]).path != (
            #[trigger] without(s, path)[j]).path,
    decreases s.len(),
{
    if s.len() > 0 {
        let t = s.drop_last();
        let w = without(s, path);
        let v = without(t, path);
        lemma_without_distinct(t, path);
        lemma_without(t, path);
        assert forall|i: int, j: int| 0 <= i < j < w.len() implies (#[trigger] w[i]).path != (
        #[trigger] w[j]).path by {
            if j < v.len() {
                assert(w[i] == v[i] && w[j] == v[j]);
            } else {
                assert(w[i] == v[i]);
                let k = choose|k: int|
                    i <= k < t.len() && #[trigger] v[i] == #[trigger] t[k] && !is_at_or_below(
                        t[k].path,
                        path,
                    );
                assert(s[k] == t[k]);
                assert(w[j] == s[s.len() - 1]);
            }
        }
    }
}

/// A node that is put in where its parent is leaves a tree.
pub proof fn lemma_with_node(s: Seq<FsNodeView>, n: FsNodeView)
    requires
        is_tree(s),
        is_own_node(n),
        n.path.len() > 0,
        has_path(s, n.path.drop_last()),
    ensures
        is_tree(with_node(s, n)),
{
    let w = without(s, n.path);
    let r = with_node(s, n);
    lemma_without(s, n.path);
    lemma_without_distinct(s, n.path);
    assert(!is_at_or_below(s[0].path, n.path));
    let k0 = choose|k: int| 0 <= k <= 0 && k < w.len() && #[trigger] w[k] == s[0];
    assert(w[0] == s[0]);
    assert(r[0] == w[0]);
    assert forall|i: int| 0 < i < r.len() implies is_own_node(#[trigger] r[i]) && has_path(
        r,
        r[i].path.drop_last(),
    ) by {
        let parent = r[i].path.drop_last();
        if i < w.len() {
            assert(r[i] == w[i]);
            let j = choose|j: int|
                i <= j < s.len() && #[trigger] w[i] == #[trigger] s[j] && !is_at_or_below(
                    s[j].path,
                    n.path,
                );
            assert(has_path(s, s[j].path.drop_last()));
        }
        let j = choose|j: int| 0 <= j < s.len() && (#[trigger] s[j]).path == parent;
        assert(r[i].path.len() > 0) by {
            match r[i].file_type {
                FileTypeView::File(f) => {
                    assert(r[i].path.len() == 1 + paths::slash_parts(f.file_info.name).len());
                },
                FileTypeView::Folder(_) => {},
            }
        }
        if is_at_or_below(parent, n.path) {
            assert(r[i].path.take(n.path.len() as int) =~= parent.take(n.path.len() as int));
            assert(false);
        }
        let k = choose|k: int| 0 <= k <= j && k < w.len() && #[trigger] w[k] == s[j];
        assert(r[k] == w[k]);
    }
    assert forall|i: int, j: int| 0 <= i < j < r.len() implies (#[trigger] r[i]).path != (
    #[trigger] r[j]).path by {
        assert(r[i] == w[i]);
        if j < w.len() {
            assert(r[j] == w[j]);
        } else {
            let k = choose|k: int|
                i <= k < s.len() && #[trigger] w[i] == #[trigger] s[k] && !is_at_or_below(
                    s[k].path,
                    n.path,
                );
            assert(n.path.take(n.path.len() as int) =~= n.path);
        }
    }
}

/// The tree of folders and files.
#[derive(Debug)]
pub struct GrizolFsMem {
    nodes: Vec<FsNode>,
}

impl View for GrizolFsMem {
    type V = Seq<FsNodeView>;

    closed spec fn view(&self) -> Seq<FsNodeView> {
        crate::views(self.nodes@)
    }
}

fn same_path(a: &Vec<String>, b: &Vec<String>) -> (r: bool)
    ensures
        r == (crate::views(a@) == crate::views(b@)),
{
    let ghost av = crate::views(a@);
    let ghost bv = crate::views(b@);
    if a.len() != b.len() {
        return false;
    }
    let r = is_below(a, b);
    assert(av.take(av.len() as int) =~= av);
    r
}

/// Whether the path is the other one or leads further.
fn is_below(path: &Vec<String>, top: &Vec<String>) -> (r: bool)
    ensures
        r == is_at_or_below(crate::views(path@), crate::views(top@)),
{
    let ghost pv = crate::views(path@);
    let ghost tv = crate::views(top@);
    if top.len() > path.len() {
        return false;
    }
    let mut i: usize = 0;
    while i < top.len()
        invariant
            i <= top@.len() <= path@.len(),
            pv == crate::views(path@),
            tv == crate::views(top@),
            forall|j: int| 0 <= j < i ==> pv[j] == #[trigger] tv[j],
        decreases top@.len() - i,
    {
        if path[i] != top[i] {
            assert(pv[i as int] != tv[i as int]);
            assert(pv.take(tv.len() as int)[i as int] != tv[i as int]);
            return false;
        }
        i += 1;
    }
    assert(pv.take(tv.len() as int) =~= tv);
    true
}

fn path_of_file(file: &GrizolFileInfo) -> (r: Vec<String>)
    ensures
        crate::views(r@) == file_path(file@),
{
    let mut parts = paths::slash_split(file.file_info.name.as_str());
    let ghost before = crate::views(parts@);
    parts.insert(0, file.folder.clone());
    assert(crate::views(parts@) =~= seq![file@.folder] + before);
    parts
}

impl GrizolFsMem {
    /// The tree is one.
    pub open spec fn wf(&self) -> bool {
        is_tree(self@)
    }

    /// A tree without folders.
    pub fn new() -> (r: Self)
        ensures
            r.wf(),
            r@ == seq![root_node()],
    {
        let root = FsNode {
            id: fuse::ROOT_ID,
            path: Vec::new(),
            file_type: GrizolFSFileType::Folder(GrizolFolder { folder: Folder::empty(), id: 1 }),
        };
        assert(root@.path =~= Seq::empty());
        let mut nodes: Vec<FsNode> = Vec::new();
        nodes.push(root);
        let r = GrizolFsMem { nodes };
        assert(r@ =~= seq![root_node()]);
        r
    }

    pub fn len(&self) -> (r: usize)
        ensures
            r == self@.len(),
    {
        self.nodes.len()
    }

    pub fn node_at(&self, i: usize) -> (r: &FsNode)
        requires
            i < self@.len(),
        ensures
            r@ == self@[i as int],
    {
        &self.nodes[i]
    }

    fn remove_below(&mut self, path: &Vec<String>)
        ensures
            final(self)@ == without(old(self)@, crate::views(path@)),
    {
        let ghost s = self@;
        let ghost pv = crate::views(path@);
        let ghost mut done: int = 0;
        let mut i: usize = 0;
        assert(without(s.take(0), pv) + s.skip(0) =~= s);
        while i < self.nodes.len()
            invariant
                pv == crate::views(path@),
                0 <= done <= s.len(),
                i == without(s.take(done), pv).len(),
                i <= self.nodes@.len(),
                self@ == without(s.take(done), pv) + s.skip(done),
            decreases self.nodes@.len() - i,
        {
            proof {
                assert(s.take(done + 1).drop_last() =~= s.take(done));
                assert(self@[i as int] == s.skip(done)[0]);
                assert(s.take(done + 1).last() == self.nodes@[i as int]@);
            }
            let ghost before = self@;
            if is_below(&self.nodes[i].path, path) {
                let _ = self.nodes.remove(i);
                assert(self@ =~= before.remove(i as int));
            } else {
                i += 1;
            }
            proof {
                done = done + 1;
                assert(self@ =~= without(s.take(done), pv) + s.skip(done));
            }
        }
        assert(s.take(done) =~= s);
        assert(s.skip(done) =~= Seq::empty());
        assert(self@ =~= without(s, pv));
    }

    fn put(&mut self, node: FsNode)
        ensures
            final(self)@ == with_node(old(self)@, node@),
    {
        self.remove_below(&node.path);
        proof {
            crate::lemma_views_push(self.nodes@, node);
        }
        self.nodes.push(node);
    }

    fn find_path(&self, path: &Vec<String>) -> (r: Option<usize>)
        ensures
            match r {
                Some(i) => place_of_path(self@, crate::views(path@)) == Some(i as nat) && i
                    < self@.len(),
                None => place_of_path(self@, crate::views(path@)) is None,
            },
    {
        let ghost pv = crate::views(path@);
        let mut n: usize = self.nodes.len();
        assert(self@.take(n as int) =~= self@);
        while n > 0
            invariant
                n <= self.nodes@.len(),
                pv == crate::views(path@),
                self@ == crate::views(self.nodes@),
                place_of_path(self@, pv) == place_of_path(self@.take(n as int), pv),
            decreases n,
        {
            proof {
                assert(self@.take(n as int).drop_last() =~= self@.take(n - 1));
                assert(self@.take(n as int).last() == self.nodes@[n - 1]@);
            }
            if same_path(&self.nodes[n - 1].path, path) {
                return Some(n - 1);
            }
            n -= 1;
        }
        None
    }

    /// Where the node with an inode is.
    pub fn find_id(&self, id: u64) -> (r: Option<usize>)
        ensures
            match r {
                Some(i) => place_of_id(self@, id) == Some(i as nat) && i < self@.len(),
                None => place_of_id(self@, id) is None,
            },
    {
        let mut n: usize = self.nodes.len();
        assert(self@.take(n as int) =~= self@);
        while n > 0
            invariant
                n <= self.nodes@.len(),
                self@ == crate::views(self.nodes@),
                place_of_id(self@, id) == place_of_id(self@.take(n as int), id),
            decreases n,
        {
            proof {
                assert(self@.take(n as int).drop_last() =~= self@.take(n - 1));
                assert(self@.take(n as int).last() == self.nodes@[n - 1]@);
            }
            if self.nodes[n - 1].id == id {
                return Some(n - 1);
            }
            n -= 1;
        }
        None
    }

    /// Where the node with a name in another one is.
    pub fn find_child(&self, parent: usize, name: &str) -> (r: Option<usize>)
        requires
            parent < self@.len(),
        ensures
            match r {
                Some(i) => place_of_path(self@, self@[parent as int].path.push(name@)) == Some(
                    i as nat,
                ) && i < self@.len(),
                None => place_of_path(self@, self@[parent as int].path.push(name@)) is None,
            },
    {
        let mut path = cloned_path(&self.nodes[parent].path);
        let name = name.to_owned();
        proof {
            crate::lemma_views_push(path@, name);
        }
        path.push(name);
        self.find_path(&path)
    }

    /// Whether a node is directly in another one.
    pub fn is_child_of(&self, child: usize, parent: usize) -> (r: bool)
        requires
            child < self@.len(),
            parent < self@.len(),
        ensures
            r == is_child(self@[child as int].path, self@[parent as int].path),
    {
        let path = &self.nodes[child].path;
        let top = &self.nodes[parent].path;
        let ghost p = self@[child as int].path;
        let ghost t = self@[parent as int].path;
        assert(p == crate::views(path@));
        assert(t == crate::views(top@));
        assert(p.len() == t.len() + 1 ==> p.drop_last() =~= p.take(t.len() as int));
        path.len() > 0 && path.len() - 1 == top.len() && is_below(path, top)
    }

    /// The id of the folder that a node is in. That which folders are in has an empty one.
    pub fn folder_from_ino(&self, ino: u64) -> (r: Option<String>)
        requires
            self.wf(),
        ensures
            match place_of_id(self@, ino) {
                Some(i) => if i == 0 {
                    r is None
                } else if self@[i as int].path.len() == 1 {
                    r matches Some(x) && x@ == Seq::<char>::empty()
                } else {
                    r matches Some(x) && x@ == self@[i as int].path[0]
                },
                None => r is None,
            },
    {
        match self.find_id(ino) {
            Some(i) => {
                if i == 0 {
                    return None;
                }
                proof {
                    assert(is_own_node(self@[i as int]));
                    if let FileTypeView::File(f) = self@[i as int].file_type {
                        paths::lemma_joined_parts(f.file_info.name);
                    }
                }
                let path = &self.nodes[i].path;
                assert(crate::views(path@) == self@[i as int].path);
                if path.len() == 1 {
                    let empty = String::new();
                    assert(empty@ =~= Seq::empty());
                    Some(empty)
                } else {
                    Some(path[0].clone())
                }
            },
            None => None,
        }
    }

    /// Puts a folder into the tree, which is empty then.
    pub fn insert_folder(&mut self, folder: GrizolFolder)
        requires
            old(self).wf(),
            fuse::has_top_dir_id(folder@.id),
        ensures
            final(self).wf(),
            final(self)@ == with_node(old(self)@, folder_node(folder@)),
    {
        let mut path: Vec<String> = Vec::new();
        path.push(folder.folder.id.clone());
        assert(crate::views(path@) =~= seq![folder@.folder.id]);
        let node = FsNode {
            id: fuse::top_dir_id(folder.id),
            path,
            file_type: GrizolFSFileType::Folder(folder),
        };
        proof {
            assert(node@ == folder_node(folder@));
            assert(node@.path.drop_last() =~= Seq::empty());
            assert(self@[0].path == node@.path.drop_last());
            lemma_with_node(self@, node@);
        }
        self.put(node);
    }

    /// Puts a file into the tree, where the directory it is in is there.
    pub fn insert_file(&mut self, file: GrizolFileInfo) -> (r: Result<(), GrizolFSErr>)
        requires
            old(self).wf(),
            fuse::has_entry_id(file@.id),
        ensures
            final(self).wf(),
            if has_path(old(self)@, file_path(file@).drop_last()) {
                r is Ok && final(self)@ == with_node(old(self)@, file_node(file@))
            } else {
                &&& final(self)@ == old(self)@
                &&& r matches Err(GrizolFSErr::NoParent(f))
                &&& f@ == file@
            },
    {
        let path = path_of_file(&file);
        let mut parent = cloned_path(&path);
        proof {
            paths::lemma_joined_parts(file@.file_info.name);
        }
        let _ = parent.pop();
        let ghost parent_path = file_path(file@).drop_last();
        proof {
            assert(crate::views(parent@) =~= parent_path);
            lemma_place_of_path(self@, parent_path);
        }
        match self.find_path(&parent) {
            None => Err(GrizolFSErr::NoParent(file)),
            Some(i) => {
                assert(self@[i as int].path == parent_path);
                let node = FsNode {
                    id: fuse::entry_id(file.id),
                    path,
                    file_type: GrizolFSFileType::File(file),
                };
                proof {
                    assert(node@ == file_node(file@));
                    lemma_with_node(self@, node@);
                }
                self.put(node);
                Ok(())
            },
        }
    }
}

fn cloned_path(path: &Vec<String>) -> (r: Vec<String>)
    ensures
        crate::views(r@) == crate::views(path@),
{
    let r = path.clone();
    assert(crate::views(r@) =~= crate::views(path@));
    r
}

// ---------------------------------------------------------------------------
// Walking through the tree

/// How long paths are at most.
pub open spec fn depth_of(s: Seq<FsNodeView>) -> nat
    decreases s.len(),
{
    if s.len() == 0 {
        0
    } else {
        let before = depth_of(s.drop_last());
        if s.last().path.len() > before {
            s.last().path.len()
        } else {
            before
        }
    }
}

pub proof fn lemma_depth(s: Seq<FsNodeView>, i: int)
    requires
        0 <= i < s.len(),
    ensures
        s[i].path.len() <= depth_of(s),
    decreases s.len(),
{
    if i < s.len() - 1 {
        assert(s.drop_last()[i] == s[i]);
        lemma_depth(s.drop_last(), i);
    }
}

/// A node and all that is in it, where what is in a node comes before it.
pub open spec fn post_order(s: Seq<FsNodeView>, n: FsNodeView) -> Seq<FsNodeView>
    decreases depth_of(s) - n.path.len(), s.len() + 1,
{
    post_children(s, n.path, s.len()).push(n)
}

/// All that is in those of the first nodes that are directly in a node.
pub open spec fn post_children(s: Seq<FsNodeView>, path: Seq<Seq<char>>, count: nat) -> Seq<FsNodeView>
    decreases depth_of(s) - path.len(), count,
{
    if count == 0 || count > s.len() {
        Seq::empty()
    } else {
        let before = post_children(s, path, (count - 1) as nat);
        let n = s[count - 1];
        if is_child(n.path, path) {
            proof {
                lemma_depth(s, count - 1);
            }
            before + post_order(s, n)
        } else {
            before
        }
    }
}

/// The nodes at these places.
pub open spec fn nodes_at(s: Seq<FsNodeView>, places: Seq<usize>) -> Seq<FsNodeView> {
    places.map_values(|i: usize| s[i as int])
}

/// There are nodes at these places.
pub open spec fn are_places(s: Seq<FsNodeView>, places: Seq<usize>) -> bool {
    forall|k: int| 0 <= k < places.len() ==> (#[trigger] places[k]) < s.len()
}

impl GrizolFsMem {
    /// Where a node and all that is in it are, where what is in a node comes before it.
    pub fn traverse_post(&self, node: usize) -> (r: Vec<usize>)
        requires
            node < self@.len(),
        ensures
            are_places(self@, r@),
            nodes_at(self@, r@) == post_order(self@, self@[node as int]),
    {
        let mut out: Vec<usize> = Vec::new();
        self.collect(node, &mut out);
        assert(nodes_at(self@, out@) =~= post_order(self@, self@[node as int]));
        out
    }

    fn collect(&self, node: usize, out: &mut Vec<usize>)
        requires
            node < self@.len(),
            are_places(self@, old(out)@),
        ensures
            are_places(self@, final(out)@),
            nodes_at(self@, final(out)@) == nodes_at(self@, old(out)@) + post_order(
                self@,
                self@[node as int],
            ),
        decreases depth_of(self@) - self@[node as int].path.len(),
    {
        let ghost s = self@;
        let ghost path = s[node as int].path;
        let ghost before = nodes_at(s, out@);
        let mut i: usize = 0;
        assert(before + post_children(s, path, 0) =~= before);
        while i < self.nodes.len()
            invariant
                i <= self.nodes@.len(),
                node < self.nodes@.len(),
                s == self@,
                s == crate::views(self.nodes@),
                path == s[node as int].path,
                are_places(s, out@),
                nodes_at(s, out@) == before + post_children(s, path, i as nat),
            decreases self.nodes@.len() - i,
        {
            if self.is_child_of(i, node) {
                proof {
                    lemma_depth(s, i as int);
                }
                self.collect(i, out);
                assert(nodes_at(s, out@) =~= before + post_children(s, path, (i + 1) as nat));
            }
            i += 1;
        }
        let ghost walked = out@;
        out.push(node);
        proof {
            assert(i as nat == s.len());
            assert(nodes_at(s, out@) =~= nodes_at(s, walked).push(s[node as int]));
            assert(post_order(s, s[node as int]) == post_children(s, path, s.len()).push(
                s[node as int],
            ));
            assert(nodes_at(s, out@) =~= before + post_order(s, s[node as int]));
        }
    }
}

/// Everything that comes up is the node or in it.
pub proof fn lemma_post_order_below(s: Seq<FsNodeView>, n: FsNodeView, k: int)
    requires
        0 <= k < post_order(s, n).len(),
    ensures
        is_at_or_below(post_order(s, n)[k].path, n.path),
        k < post_order(s, n).len() - 1 ==> post_order(s, n)[k].path.len() > n.path.len()
            && s.contains(post_order(s, n)[k]),
    decreases depth_of(s) - n.path.len(), s.len() + 1,
{
    let before = post_children(s, n.path, s.len());
    if k < before.len() {
        lemma_post_children_below(s, n.path, s.len(), k);
    } else {
        assert(n.path.take(n.path.len() as int) =~= n.path);
    }
}

proof fn lemma_post_children_below(s: Seq<FsNodeView>, path: Seq<Seq<char>>, count: nat, k: int)
    requires
        0 <= k < post_children(s, path, count).len(),
    ensures
        is_at_or_below(post_children(s, path, count)[k].path, path),
        post_children(s, path, count)[k].path.len() > path.len(),
        s.contains(post_children(s, path, count)[k]),
    decreases depth_of(s) - path.len(), count,
{
    let before = post_children(s, path, (count - 1) as nat);
    if k < before.len() {
        assert(post_children(s, path, count)[k] == before[k]);
        lemma_post_children_below(s, path, (count - 1) as nat, k);
    } else {
        let n = s[count - 1];
        let m = post_order(s, n);
        let x = m[k - before.len()];
        lemma_depth(s, count - 1);
        lemma_post_order_below(s, n, k - before.len());
        assert(post_children(s, path, count)[k] == x);
        assert(x.path.take(path.len() as int) =~= x.path.take(n.path.len() as int).take(
            path.len() as int,
        ));
        assert(n.path.take(path.len() as int) =~= n.path.drop_last());
        if k - before.len() == m.len() - 1 {
            assert(x == n);
            assert(s[count - 1] == x);
        }
    }
}

/// Each path of which a path of the tree is a continuation is in the tree.
pub proof fn lemma_has_prefixes(s: Seq<FsNodeView>, i: int, len: nat)
    requires
        is_tree(s),
        0 <= i < s.len(),
        len <= s[i].path.len(),
    ensures
        has_path(s, s[i].path.take(len as int)),
    decreases s[i].path.len(),
{
    let path = s[i].path;
    if len == path.len() {
        assert(path.take(len as int) =~= path);
    } else {
        assert(i > 0);
        assert(has_path(s, path.drop_last()));
        let j = choose|j: int| 0 <= j < s.len() && (#[trigger] s[j]).path == path.drop_last();
        lemma_has_prefixes(s, j, len);
        assert(path.drop_last().take(len as int) =~= path.take(len as int));
    }
}

/// Everything in the node comes up.
pub proof fn lemma_post_order_complete(s: Seq<FsNodeView>, n: FsNodeView, i: int)
    requires
        is_tree(s),
        s.contains(n),
        0 <= i < s.len(),
        is_at_or_below(s[i].path, n.path),
    ensures
        post_order(s, n).contains(s[i]),
    decreases s[i].path.len() - n.path.len(),
{
    let path = s[i].path;
    let r = post_order(s, n);
    let at = choose|at: int| 0 <= at < s.len() && s[at] == n;
    if path.len() == n.path.len() {
        assert(path.take(path.len() as int) =~= path);
        assert(s[at].path == s[i].path);
        assert(r[r.len() - 1] == s[i]);
    } else {
        let step = path.take((n.path.len() + 1) as int);
        lemma_has_prefixes(s, i, n.path.len() + 1);
        let j = choose|j: int| 0 <= j < s.len() && (#[trigger] s[j]).path == step;
        assert(step.drop_last() =~= path.take(n.path.len() as int));
        assert(path.take(step.len() as int) =~= step);
        lemma_post_order_complete(s, s[j], i);
        let k = choose|k: int| 0 <= k < post_order(s, s[j]).len() && post_order(s, s[j])[k] == s[i];
        lemma_post_children_has(s, n.path, s.len(), j, k);
        let m = choose|m: int|
            0 <= m < post_children(s, n.path, s.len()).len() && post_children(
                s,
                n.path,
                s.len(),
            )[m] == s[i];
        assert(r[m] == s[i]);
    }
}

proof fn lemma_post_children_has(
    s: Seq<FsNodeView>,
    path: Seq<Seq<char>>,
    count: nat,
    j: int,
    k: int,
)
    requires
        0 <= j < count <= s.len(),
        is_child(s[j].path, path),
        0 <= k < post_order(s, s[j]).len(),
    ensures
        post_children(s, path, count).contains(post_order(s, s[j])[k]),
    decreases count,
{
    let before = post_children(s, path, (count - 1) as nat);
    let after = post_children(s, path, count);
    if j == count - 1 {
        assert(after[before.len() + k] == post_order(s, s[j])[k]);
    } else {
        lemma_post_children_has(s, path, (count - 1) as nat, j, k);
        let m = choose|m: int| 0 <= m < before.len() && before[m] == post_order(s, s[j])[k];
        assert(after[m] == before[m]);
    }
}

/// What comes up later is not in what came up before.
pub proof fn lemma_post_order_sorted(s: Seq<FsNodeView>, n: FsNodeView, k: int, l: int)
    requires
        is_tree(s),
        0 <= k < l < post_order(s, n).len(),
    ensures
        !is_at_or_below(post_order(s, n)[l].path, post_order(s, n)[k].path),
    decreases depth_of(s) - n.path.len(), s.len() + 1,
{
    let before = post_children(s, n.path, s.len());
    if l < before.len() {
        lemma_post_children_sorted(s, n.path, s.len(), k, l);
    } else {
        lemma_post_order_below(s, n, k);
    }
}

proof fn lemma_post_children_sorted(
    s: Seq<FsNodeView>,
    path: Seq<Seq<char>>,
    count: nat,
    k: int,
    l: int,
)
    requires
        is_tree(s),
        count <= s.len(),
        0 <= k < l < post_children(s, path, count).len(),
    ensures
        !is_at_or_below(
            post_children(s, path, count)[l].path,
            post_children(s, path, count)[k].path,
        ),
    decreases depth_of(s) - path.len(), count,
{
    let before = post_children(s, path, (count - 1) as nat);
    let after = post_children(s, path, count);
    let n = s[count - 1];
    if l < before.len() {
        assert(after[l] == before[l] && after[k] == before[k]);
        lemma_post_children_sorted(s, path, (count - 1) as nat, k, l);
    } else {
        lemma_depth(s, count - 1);
        let m = post_order(s, n);
        assert(after[l] == m[l - before.len()]);
        if k >= before.len() {
            assert(after[k] == m[k - before.len()]);
            lemma_post_order_sorted(s, n, k - before.len(), l - before.len());
        } else {
            assert(after[k] == before[k]);
            lemma_post_order_below(s, n, l - before.len());
            lemma_post_children_branch(s, path, (count - 1) as nat, k);
            let j = choose|j: int|
                0 <= j < count - 1 && is_child((#[trigger] s[j]).path, path) && is_at_or_below(
                    before[k].path,
                    s[j].path,
                );
            if is_at_or_below(after[l].path, after[k].path) {
                let c = path.len() + 1;
                assert(after[l].path.take(c as int) =~= after[l].path.take(
                    after[k].path.len() as int,
                ).take(c as int));
                assert(s[j].path == n.path);
            }
        }
    }
}

/// What comes up is in one of the first nodes that are directly in the node.
proof fn lemma_post_children_branch(s: Seq<FsNodeView>, path: Seq<Seq<char>>, count: nat, k: int)
    requires
        count <= s.len(),
        0 <= k < post_children(s, path, count).len(),
    ensures
        exists|j: int|
            0 <= j < count && is_child((#[trigger] s[j]).path, path) && is_at_or_below(
                post_children(s, path, count)[k].path,
                s[j].path,
            ),
    decreases count,
{
    let before = post_children(s, path, (count - 1) as nat);
    let after = post_children(s, path, count);
    if k < before.len() {
        assert(after[k] == before[k]);
        lemma_post_children_branch(s, path, (count - 1) as nat, k);
        let j = choose|j: int|
            0 <= j < count - 1 && is_child((#[trigger] s[j]).path, path) && is_at_or_below(
                before[k].path,
                s[j].path,
            );
        assert(is_child(s[j].path, path) && is_at_or_below(after[k].path, s[j].path));
    } else {
        let n = s[count - 1];
        lemma_post_order_below(s, n, k - before.len());
        assert(after[k] == post_order(s, n)[k - before.len()]);
        assert(is_child(s[count - 1].path, path));
    }
}

/// Walking through a node brings up exactly what is in it, and each thing only after all
/// that is in it.
pub proof fn law_walk(s: Seq<FsNodeView>, n: FsNodeView)
    requires
        is_tree(s),
        s.contains(n),
    ensures
        forall|x: FsNodeView| #[trigger]
            post_order(s, n).contains(x) <==> s.contains(x) && is_at_or_below(x.path, n.path),
        forall|k: int, l: int|
            0 <= k < l < post_order(s, n).len() ==> !is_at_or_below(
                (#[trigger] post_order(s, n)[l]).path,
                (#[trigger] post_order(s, n)[k]).path,
            ),
{
    let r = post_order(s, n);
    assert forall|x: FsNodeView| #[trigger] r.contains(x) <==> s.contains(x) && is_at_or_below(
        x.path,
        n.path,
    ) by {
        if r.contains(x) {
            let k = choose|k: int| 0 <= k < r.len() && r[k] == x;
            lemma_post_order_below(s, n, k);
        }
        if s.contains(x) && is_at_or_below(x.path, n.path) {
            let i = choose|i: int| 0 <= i < s.len() && s[i] == x;
            lemma_post_order_complete(s, n, i);
        }
    }
    assert forall|k: int, l: int| 0 <= k < l < r.len() implies !is_at_or_below(
        (#[trigger] r[l]).path,
        (#[trigger] r[k]).path,
    ) by {
        lemma_post_order_sorted(s, n, k, l);
    }
}

// ---------------------------------------------------------------------------
// Filling the tree

/// All folders have an inode.
pub open spec fn folder_ids_ok(folders: Seq<GrizolFolderView>) -> bool {
    forall|i: int| 0 <= i < folders.len() ==> fuse::has_top_dir_id((#[trigger] folders[i]).id)
}

/// All files have an inode.
pub open spec fn file_ids_ok(files: Seq<GrizolFileInfoView>) -> bool {
    forall|i: int| 0 <= i < files.len() ==> fuse::has_entry_id((#[trigger] files[i]).id)
}

/// The tree with folders put into it.
pub open spec fn with_folders(s: Seq<FsNodeView>, folders: Seq<GrizolFolderView>) -> Seq<FsNodeView>
    decreases folders.len(),
{
    if folders.len() == 0 {
        s
    } else {
        with_node(with_folders(s, folders.drop_last()), folder_node(folders.last()))
    }
}

/// A tree, and the files that could not be put into it.
#[verifier::ext_equal]
pub struct Filled {
    pub tree: Seq<FsNodeView>,
    pub rest: Seq<GrizolFileInfoView>,
}

/// The directory that a file is in is there.
pub open spec fn has_place(s: Seq<FsNodeView>, f: GrizolFileInfoView) -> bool {
    has_path(s, file_path(f).drop_last())
}

/// The tree with files put into it. A file whose directory is not there has to wait for
/// the others; it ends when all that are left have been tried in vain.
pub open spec fn with_files(s: Seq<FsNodeView>, queue: Seq<GrizolFileInfoView>, tried: nat) -> Filled
    decreases queue.len(), queue.len() - tried,
{
    if tried >= queue.len() {
        Filled { tree: s, rest: queue }
    } else if has_place(s, queue[0]) {
        with_files(with_node(s, file_node(queue[0])), queue.skip(1), 0)
    } else {
        with_files(s, queue.skip(1).push(queue[0]), tried + 1)
    }
}

impl GrizolFsMem {
    /// Puts folders into the tree, which are empty then.
    pub fn insert_folders(&mut self, folders: &Vec<GrizolFolder>)
        requires
            old(self).wf(),
            folder_ids_ok(crate::views(folders@)),
        ensures
            final(self).wf(),
            final(self)@ == with_folders(old(self)@, crate::views(folders@)),
    {
        let ghost s = self@;
        let ghost fs = crate::views(folders@);
        let mut i: usize = 0;
        while i < folders.len()
            invariant
                i <= folders@.len(),
                fs == crate::views(folders@),
                folder_ids_ok(fs),
                self.wf(),
                self@ == with_folders(s, fs.take(i as int)),
            decreases folders@.len() - i,
        {
            let folder = folders[i].clone();
            proof {
                assert(fs.take(i + 1).drop_last() =~= fs.take(i as int));
                assert(fs.take(i + 1).last() == fs[i as int]);
                assert(folder@ == fs[i as int]);
            }
            self.insert_folder(folder);
            i += 1;
        }
        assert(fs.take(fs.len() as int) =~= fs);
    }

    /// Puts files into the tree, each after the directory it is in. Gives back those whose
    /// directory is not there.
    pub fn insert_files(&mut self, files: &Vec<GrizolFileInfo>) -> (r: Vec<GrizolFileInfo>)
        requires
            old(self).wf(),
            file_ids_ok(crate::views(files@)),
        ensures
            final(self).wf(),
            (Filled { tree: final(self)@, rest: crate::views(r@) }) == with_files(
                old(self)@,
                crate::views(files@),
                0,
            ),
    {
        let ghost s = self@;
        let ghost all = crate::views(files@);
        let mut queue: VecDeque<GrizolFileInfo> = VecDeque::new();
        let mut i: usize = 0;
        while i < files.len()
            invariant
                i <= files@.len(),
                all == crate::views(files@),
                crate::views(queue@) == all.take(i as int),
            decreases files@.len() - i,
        {
            let file = files[i].clone();
            proof {
                crate::lemma_views_push(queue@, file);
                assert(all.take(i + 1) =~= all.take(i as int).push(all[i as int]));
            }
            queue.push_back(file);
            i += 1;
        }
        assert(crate::views(queue@) =~= all);
        let mut tried: usize = 0;
        while tried < queue.len()
            invariant
                self.wf(),
                file_ids_ok(crate::views(queue@)),
                with_files(self@, crate::views(queue@), tried as nat) == with_files(s, all, 0),
            decreases queue@.len(), queue@.len() - tried,
        {
            let ghost before = crate::views(queue@);
            let ghost tree = self@;
            if let Some(file) = queue.pop_front() {
                assert(file@ == before[0]);
                assert(crate::views(queue@) =~= before.skip(1));
                match self.insert_file(file) {
                    Ok(_) => {
                        tried = 0;
                    },
                    Err(GrizolFSErr::NoParent(f)) => {
                        proof {
                            crate::lemma_views_push(queue@, f);
                        }
                        queue.push_back(f);
                        tried += 1;
                    },
                }
                assert(file_ids_ok(crate::views(queue@))) by {
                    let now = crate::views(queue@);
                    assert forall|k: int| 0 <= k < now.len() implies fuse::has_entry_id(
                        (#[trigger] now[k]).id,
                    ) by {
                        if k < before.len() - 1 {
                            assert(now[k] == before[k + 1]);
                        } else {
                            assert(now[k] == before[0]);
                        }
                    }
                }
            }
        }
        let ghost rest = crate::views(queue@);
        let mut out: Vec<GrizolFileInfo> = Vec::new();
        assert(crate::views(out@) + rest =~= rest);
        while queue.len() > 0
            invariant
                crate::views(out@) + crate::views(queue@) == rest,
            decreases queue@.len(),
        {
            let ghost before = crate::views(queue@);
            let ghost had = crate::views(out@);
            if let Some(file) = queue.pop_front() {
                proof {
                    crate::lemma_views_push(out@, file);
                }
                out.push(file);
                assert(crate::views(queue@) =~= before.skip(1));
                assert(had + before =~= crate::views(out@) + crate::views(queue@));
            }
        }
        assert(crate::views(out@) =~= rest);
        out
    }
}

/// None of what could not be put into the tree has its directory there.
pub open spec fn rest_has_no_place(r: Filled) -> bool {
    forall|i: int| 0 <= i < r.rest.len() ==> !has_place(r.tree, #[trigger] r.rest[i])
}

proof fn lemma_rest(s: Seq<FsNodeView>, queue: Seq<GrizolFileInfoView>, tried: nat)
    requires
        tried <= queue.len(),
        forall|i: int|
            queue.len() - tried <= i < queue.len() ==> !has_place(s, #[trigger] queue[i]),
    ensures
        rest_has_no_place(with_files(s, queue, tried)),
    decreases queue.len(), queue.len() - tried,
{
    if tried < queue.len() {
        if has_place(s, queue[0]) {
            lemma_rest(with_node(s, file_node(queue[0])), queue.skip(1), 0);
        } else {
            let rotated = queue.skip(1).push(queue[0]);
            assert forall|i: int|
                rotated.len() - (tried + 1) <= i < rotated.len() implies !has_place(
                s,
                #[trigger] rotated[i],
            ) by {
                if i < rotated.len() - 1 {
                    assert(rotated[i] == queue[i + 1]);
                }
            }
            lemma_rest(s, rotated, tried + 1);
        }
    }
}

/// Nothing is taken out where no node has the path.
proof fn lemma_without_nothing(s: Seq<FsNodeView>, path: Seq<Seq<char>>)
    requires
        forall|i: int| 0 <= i < s.len() ==> !is_at_or_below((#[trigger] s[i]).path, path),
    ensures
        without(s, path) == s,
    decreases s.len(),
{
    if s.len() > 0 {
        let t = s.drop_last();
        assert forall|i: int| 0 <= i < t.len() implies !is_at_or_below(
            (#[trigger] t[i]).path,
            path,
        ) by {
            assert(t[i] == s[i]);
        }
        lemma_without_nothing(t, path);
        assert(s[s.len() - 1] == s.last());
        assert(t.push(s.last()) =~= s);
    }
}

/// A node whose path is not in the tree leaves the others there.
proof fn lemma_put_new(s: Seq<FsNodeView>, n: FsNodeView)
    requires
        is_tree(s),
        !has_path(s, n.path),
    ensures
        with_node(s, n) == s.push(n),
{
    assert forall|i: int| 0 <= i < s.len() implies !is_at_or_below(
        (#[trigger] s[i]).path,
        n.path,
    ) by {
        if is_at_or_below(s[i].path, n.path) {
            lemma_has_prefixes(s, i, n.path.len());
        }
    }
    lemma_without_nothing(s, n.path);
}

/// The ways to the files differ.
pub open spec fn file_paths_differ(files: Seq<GrizolFileInfoView>) -> bool {
    forall|i: int, j: int|
        0 <= i < j < files.len() ==> file_path(#[trigger] files[i]) != file_path(
            #[trigger] files[j],
        )
}

/// The file is in the tree, or among those that could not be put into it.
pub open spec fn is_settled(r: Filled, f: GrizolFileInfoView) -> bool {
    r.tree.contains(file_node(f)) || r.rest.contains(f)
}

proof fn lemma_file_path_len(f: GrizolFileInfoView)
    ensures
        file_path(f).len() >= 2,
{
    paths::lemma_joined_parts(f.file_info.name);
}

/// One of the folders has the name.
pub open spec fn in_folders(folders: Seq<GrizolFolderView>, name: Seq<char>) -> bool {
    exists|i: int| 0 <= i < folders.len() && (#[trigger] folders[i]).folder.id == name
}

/// The node is one of the folders, or in one of them.
pub open spec fn is_listed(folders: Seq<GrizolFolderView>, n: FsNodeView) -> bool {
    n.path.len() > 0 && in_folders(folders, n.path[0])
}

/// None of the files that are in one of the folders is in the tree.
pub open spec fn are_new(
    s: Seq<FsNodeView>,
    folders: Seq<GrizolFolderView>,
    files: Seq<GrizolFileInfoView>,
) -> bool {
    forall|i: int|
        0 <= i < files.len() && in_folders(folders, (#[trigger] files[i]).folder) ==> !has_path(
            s,
            file_path(files[i]),
        )
}

/// Putting in a file leaves what it is not put in the place of.
proof fn lemma_put_file(
    s: Seq<FsNodeView>,
    folders: Seq<GrizolFolderView>,
    f: GrizolFileInfoView,
    n: FsNodeView,
)
    requires
        is_tree(s),
        in_folders(folders, f.folder) ==> !has_path(s, file_path(f)),
        s.contains(n),
        n.path.len() == 0 || is_listed(folders, n),
    ensures
        with_node(s, file_node(f)).contains(n),
{
    let t = with_node(s, file_node(f));
    let w = without(s, file_path(f));
    lemma_file_path_len(f);
    let k = choose|k: int| 0 <= k < s.len() && s[k] == n;
    if in_folders(folders, f.folder) {
        lemma_put_new(s, file_node(f));
        assert(t[k] == n);
    } else {
        assert(!is_at_or_below(n.path, file_path(f))) by {
            if is_at_or_below(n.path, file_path(f)) {
                assert(n.path.take(file_path(f).len() as int)[0] == n.path[0]);
                assert(n.path[0] == f.folder);
            }
        }
        lemma_without(s, file_path(f));
        let l = choose|l: int| 0 <= l <= k && l < w.len() && #[trigger] w[l] == s[k];
        assert(t[l] == n);
    }
}

/// A path that comes with a file is that of the file, or was there.
proof fn lemma_put_path(s: Seq<FsNodeView>, f: GrizolFileInfoView, path: Seq<Seq<char>>)
    requires
        has_path(with_node(s, file_node(f)), path),
    ensures
        has_path(s, path) || path == file_path(f),
{
    let t = with_node(s, file_node(f));
    let w = without(s, file_path(f));
    lemma_without(s, file_path(f));
    let k = choose|k: int| 0 <= k < t.len() && (#[trigger] t[k]).path == path;
    if k < w.len() {
        assert(w[k] == t[k]);
        let i = choose|i: int|
            k <= i < s.len() && #[trigger] w[k] == #[trigger] s[i] && !is_at_or_below(
                s[i].path,
                file_path(f),
            );
        assert(s[i].path == path);
    }
}

proof fn lemma_files_settled(
    s: Seq<FsNodeView>,
    folders: Seq<GrizolFolderView>,
    queue: Seq<GrizolFileInfoView>,
    tried: nat,
)
    requires
        is_tree(s),
        file_ids_ok(queue),
        file_paths_differ(queue),
        are_new(s, folders, queue),
    ensures
        is_tree(with_files(s, queue, tried).tree),
        forall|n: FsNodeView|
            s.contains(n) && (n.path.len() == 0 || is_listed(folders, n)) ==> #[trigger] with_files(
                s,
                queue,
                tried,
            ).tree.contains(n),
        forall|i: int|
            0 <= i < queue.len() && in_folders(folders, (#[trigger] queue[i]).folder)
                ==> is_settled(with_files(s, queue, tried), queue[i]),
    decreases queue.len(), queue.len() - tried,
{
    let r = with_files(s, queue, tried);
    if tried >= queue.len() {
        assert forall|i: int| 0 <= i < queue.len() implies is_settled(r, #[trigger] queue[i]) by {
            assert(r.rest[i] == queue[i]);
        }
    } else {
        let f = queue[0];
        let others = queue.skip(1);
        assert forall|i: int| 0 <= i < others.len() implies (#[trigger] others[i]) == queue[i
            + 1] by {}
        if has_place(s, f) {
            let t = with_node(s, file_node(f));
            lemma_file_path_len(f);
            assert(fuse::has_entry_id(queue[0].id));
            assert(is_own_node(file_node(f)));
            lemma_with_node(s, file_node(f));
            assert(are_new(t, folders, others)) by {
                assert forall|i: int|
                    0 <= i < others.len() && in_folders(
                        folders,
                        (#[trigger] others[i]).folder,
                    ) implies !has_path(t, file_path(others[i])) by {
                    let p = file_path(others[i]);
                    assert(others[i] == queue[i + 1]);
                    assert(p != file_path(queue[0]));
                    if has_path(t, p) {
                        lemma_put_path(s, f, p);
                    }
                }
            }
            assert(file_paths_differ(others)) by {
                assert forall|i: int, j: int| 0 <= i < j < others.len() implies file_path(
                    #[trigger] others[i],
                ) != file_path(#[trigger] others[j]) by {
                    assert(others[i] == queue[i + 1] && others[j] == queue[j + 1]);
                }
            }
            lemma_files_settled(t, folders, others, 0);
            assert forall|n: FsNodeView|
                s.contains(n) && (n.path.len() == 0 || is_listed(
                    folders,
                    n,
                )) implies #[trigger] r.tree.contains(n) by {
                lemma_put_file(s, folders, f, n);
            }
            assert(t.last() == file_node(f));
            assert(t[t.len() - 1] == file_node(f));
            assert(t.contains(file_node(f)));
            assert forall|i: int|
                0 <= i < queue.len() && in_folders(
                    folders,
                    (#[trigger] queue[i]).folder,
                ) implies is_settled(r, queue[i]) by {
                if i > 0 {
                    assert(queue[i] == others[i - 1]);
                } else {
                    assert(file_node(f).path[0] == f.folder);
                    assert(is_listed(folders, file_node(f)));
                }
            }
        } else {
            let rotated = others.push(f);
            assert(file_paths_differ(rotated)) by {
                assert forall|i: int, j: int| 0 <= i < j < rotated.len() implies file_path(
                    #[trigger] rotated[i],
                ) != file_path(#[trigger] rotated[j]) by {
                    assert(rotated[i] == queue[i + 1]);
                    if j < others.len() {
                        assert(rotated[j] == queue[j + 1]);
                    } else {
                        assert(rotated[j] == queue[0]);
                    }
                }
            }
            assert forall|i: int| 0 <= i < rotated.len() implies fuse::has_entry_id(
                (#[trigger] rotated[i]).id,
            ) && (in_folders(folders, rotated[i].folder) ==> !has_path(
                s,
                file_path(rotated[i]),
            )) by {
                if i < others.len() {
                    assert(rotated[i] == queue[i + 1]);
                } else {
                    assert(rotated[i] == queue[0]);
                }
            }
            lemma_files_settled(s, folders, rotated, tried + 1);
            assert forall|i: int|
                0 <= i < queue.len() && in_folders(
                    folders,
                    (#[trigger] queue[i]).folder,
                ) implies is_settled(r, queue[i]) by {
                if i > 0 {
                    assert(queue[i] == rotated[i - 1]);
                } else {
                    assert(queue[i] == rotated[rotated.len() - 1]);
                }
            }
        }
    }
}

/// The node is that of one of the folders, or was there before and is in none of them.
pub open spec fn is_folder_or_old(
    s: Seq<FsNodeView>,
    folders: Seq<GrizolFolderView>,
    n: FsNodeView,
) -> bool {
    if is_listed(folders, n) {
        exists|j: int| 0 <= j < folders.len() && n == folder_node(#[trigger] folders[j])
    } else {
        s.contains(n)
    }
}

proof fn lemma_more_folders(
    s: Seq<FsNodeView>,
    before: Seq<GrizolFolderView>,
    f: GrizolFolderView,
    n: FsNodeView,
)
    requires
        is_folder_or_old(s, before, n),
        n.path.len() > 0 ==> n.path[0] != f.folder.id,
    ensures
        is_folder_or_old(s, before.push(f), n),
{
    let folders = before.push(f);
    if is_listed(folders, n) {
        let j = choose|j: int|
            0 <= j < folders.len() && (#[trigger] folders[j]).folder.id == n.path[0];
        assert(before[j] == folders[j]);
        assert(is_listed(before, n));
        let l = choose|l: int| 0 <= l < before.len() && n == folder_node(#[trigger] before[l]);
        assert(folders[l] == before[l]);
    } else if is_listed(before, n) {
        let j = choose|j: int|
            0 <= j < before.len() && (#[trigger] before[j]).folder.id == n.path[0];
        assert(folders[j] == before[j]);
    }
}

proof fn lemma_put_folder(
    s: Seq<FsNodeView>,
    t: Seq<FsNodeView>,
    before: Seq<GrizolFolderView>,
    f: GrizolFolderView,
    n: FsNodeView,
)
    requires
        t.contains(n) ==> is_folder_or_old(s, before, n),
        with_node(t, folder_node(f)).contains(n),
    ensures
        is_folder_or_old(s, before.push(f), n),
{
    let path = folder_node(f).path;
    let r = with_node(t, folder_node(f));
    let w = without(t, path);
    lemma_without(t, path);
    let i = choose|i: int| 0 <= i < r.len() && r[i] == n;
    if i < w.len() {
        assert(w[i] == n);
        let k = choose|k: int|
            i <= k < t.len() && #[trigger] w[i] == #[trigger] t[k] && !is_at_or_below(
                t[k].path,
                path,
            );
        assert(t.contains(n));
        if n.path.len() > 0 {
            assert(n.path.take(1) =~= seq![n.path[0]]);
        }
        lemma_more_folders(s, before, f, n);
    } else {
        assert(n == folder_node(f));
        let folders = before.push(f);
        assert(folders[folders.len() - 1] == f);
        assert(n.path[0] == f.folder.id);
    }
}

/// A path with one name is there, or becomes so.
proof fn lemma_put_folder_path(t: Seq<FsNodeView>, f: GrizolFolderView, name: Seq<char>)
    requires
        has_path(t, seq![name]) || name == f.folder.id,
    ensures
        has_path(with_node(t, folder_node(f)), seq![name]),
{
    let path = folder_node(f).path;
    let r = with_node(t, folder_node(f));
    let w = without(t, path);
    let p = seq![name];
    lemma_without(t, path);
    if name == f.folder.id {
        assert(p =~= path);
        assert(r[w.len() as int].path == p);
    } else {
        let k = choose|k: int| 0 <= k < t.len() && (#[trigger] t[k]).path == p;
        assert(!is_at_or_below(t[k].path, path)) by {
            assert(p.take(1) =~= p);
            assert(p[0] != path[0]);
        }
        let l = choose|l: int| 0 <= l <= k && l < w.len() && #[trigger] w[l] == t[k];
        assert(r[l].path == p);
    }
}

/// Folders that are put into a tree are empty there, and what is in none of them was there
/// before.
pub proof fn lemma_put_folders(s: Seq<FsNodeView>, folders: Seq<GrizolFolderView>)
    requires
        is_tree(s),
        folder_ids_ok(folders),
    ensures
        is_tree(with_folders(s, folders)),
        forall|n: FsNodeView| #[trigger]
            with_folders(s, folders).contains(n) ==> is_folder_or_old(s, folders, n),
        forall|j: int|
            0 <= j < folders.len() ==> has_path(
                with_folders(s, folders),
                seq![(#[trigger] folders[j]).folder.id],
            ),
    decreases folders.len(),
{
    let r = with_folders(s, folders);
    if folders.len() > 0 {
        let before = folders.drop_last();
        let f = folders.last();
        let t = with_folders(s, before);
        let n = folder_node(f);
        assert forall|i: int| 0 <= i < before.len() implies fuse::has_top_dir_id(
            (#[trigger] before[i]).id,
        ) by {
            assert(before[i] == folders[i]);
        }
        lemma_put_folders(s, before);
        assert(fuse::has_top_dir_id(folders[folders.len() - 1].id));
        assert(n.path.drop_last() =~= Seq::empty());
        assert(t[0].path == n.path.drop_last());
        lemma_with_node(t, n);
        assert(before.push(f) =~= folders);
        assert forall|m: FsNodeView| #[trigger] r.contains(m) implies is_folder_or_old(
            s,
            folders,
            m,
        ) by {
            lemma_put_folder(s, t, before, f, m);
        }
        assert forall|j: int| 0 <= j < folders.len() implies has_path(
            r,
            seq![(#[trigger] folders[j]).folder.id],
        ) by {
            if j < before.len() {
                assert(before[j] == folders[j]);
            }
            lemma_put_folder_path(t, f, folders[j].folder.id);
        }
    }
}

/// The folder that a file is in is one of the folders, and the directories that it is in are
/// among the files.
pub open spec fn has_directories(
    folders: Seq<GrizolFolderView>,
    files: Seq<GrizolFileInfoView>,
    f: GrizolFileInfoView,
) -> bool {
    &&& in_folders(folders, f.folder)
    &&& forall|n: int|
        2 <= n < file_path(f).len() ==> is_file_path(files, #[trigger] file_path(f).take(n))
}

/// One of the files has the path.
pub open spec fn is_file_path(files: Seq<GrizolFileInfoView>, path: Seq<Seq<char>>) -> bool {
    exists|j: int| 0 <= j < files.len() && file_path(#[trigger] files[j]) == path
}

/// Folders and files that are put into a tree, whatever it held before, are all there: every
/// file whose folder and directories are listed is in the tree. Of the others, none that was
/// left out has its directory in the tree.
pub proof fn law_every_file_is_there(
    s: Seq<FsNodeView>,
    folders: Seq<GrizolFolderView>,
    files: Seq<GrizolFileInfoView>,
)
    requires
        is_tree(s),
        folder_ids_ok(folders),
        file_ids_ok(files),
        file_paths_differ(files),
    ensures
        ({
            let r = with_files(with_folders(s, folders), files, 0);
            &&& is_tree(r.tree)
            &&& forall|i: int|
                0 <= i < files.len() && has_directories(folders, files, #[trigger] files[i])
                    ==> r.tree.contains(file_node(files[i]))
            &&& forall|i: int|
                0 <= i < files.len() && in_folders(folders, (#[trigger] files[i]).folder)
                    ==> is_settled(r, files[i])
            &&& forall|n: FsNodeView|
                with_folders(s, folders).contains(n) && (n.path.len() == 0 || is_listed(
                    folders,
                    n,
                )) ==> #[trigger] r.tree.contains(n)
            &&& rest_has_no_place(r)
        }),
{
    let t = with_folders(s, folders);
    let r = with_files(t, files, 0);
    lemma_put_folders(s, folders);
    assert forall|i: int|
        0 <= i < files.len() && in_folders(folders, (#[trigger] files[i]).folder) implies !has_path(
        t,
        file_path(files[i]),
    ) by {
        let p = file_path(files[i]);
        lemma_file_path_len(files[i]);
        if has_path(t, p) {
            let k = choose|k: int| 0 <= k < t.len() && (#[trigger] t[k]).path == p;
            assert(t.contains(t[k]));
            assert(p[0] == files[i].folder);
            assert(is_listed(folders, t[k]));
        }
    }
    lemma_files_settled(t, folders, files, 0);
    lemma_rest(t, files, 0);
    assert forall|i: int|
        0 <= i < files.len() && has_directories(folders, files, #[trigger] files[i]) implies r.tree.contains(
    file_node(files[i])) by {
        lemma_placed(s, folders, files, i, file_path(files[i]).len());
    }
}

/// The way to a file whose folder and directories are listed is there, step by step.
proof fn lemma_placed(
    s: Seq<FsNodeView>,
    folders: Seq<GrizolFolderView>,
    files: Seq<GrizolFileInfoView>,
    i: int,
    n: nat,
)
    requires
        is_tree(s),
        folder_ids_ok(folders),
        0 <= i < files.len(),
        has_directories(folders, files, files[i]),
        1 <= n <= file_path(files[i]).len(),
        ({
            let t = with_folders(s, folders);
            let r = with_files(t, files, 0);
            &&& forall|j: int|
                0 <= j < files.len() && in_folders(folders, (#[trigger] files[j]).folder)
                    ==> is_settled(r, files[j])
            &&& forall|m: FsNodeView|
                t.contains(m) && (m.path.len() == 0 || is_listed(folders, m))
                    ==> #[trigger] r.tree.contains(m)
            &&& rest_has_no_place(r)
        }),
    ensures
        has_path(
            with_files(with_folders(s, folders), files, 0).tree,
            file_path(files[i]).take(n as int),
        ),
        n == file_path(files[i]).len() ==> with_files(
            with_folders(s, folders),
            files,
            0,
        ).tree.contains(file_node(files[i])),
    decreases n,
{
    let t = with_folders(s, folders);
    let r = with_files(t, files, 0);
    let whole = file_path(files[i]);
    let p = whole.take(n as int);
    lemma_file_path_len(files[i]);
    assert(whole[0] == files[i].folder);
    if n == 1 {
        lemma_put_folders(s, folders);
        let j = choose|j: int|
            0 <= j < folders.len() && (#[trigger] folders[j]).folder.id == files[i].folder;
        assert(p =~= seq![folders[j].folder.id]);
        let k = choose|k: int| 0 <= k < t.len() && (#[trigger] t[k]).path == p;
        assert(t.contains(t[k]));
        assert(is_listed(folders, t[k]));
        assert(r.tree.contains(t[k]));
        let l = choose|l: int| 0 <= l < r.tree.len() && r.tree[l] == t[k];
        assert(r.tree[l].path == p);
    } else {
        lemma_placed(s, folders, files, i, (n - 1) as nat);
        let j: int = if n < whole.len() {
            assert(is_file_path(files, whole.take(n as int)));
            choose|j: int| 0 <= j < files.len() && file_path(#[trigger] files[j]) == p
        } else {
            assert(p =~= whole);
            i
        };
        assert(file_path(files[j]) == p);
        lemma_file_path_len(files[j]);
        assert(p[0] == files[j].folder);
        assert(in_folders(folders, files[j].folder));
        assert(is_settled(r, files[j]));
        assert(p.drop_last() =~= whole.take(n - 1));
        assert(has_place(r.tree, files[j]));
        if r.rest.contains(files[j]) {
            let l = choose|l: int| 0 <= l < r.rest.len() && r.rest[l] == files[j];
            assert(!has_place(r.tree, r.rest[l]));
        }
        let l = choose|l: int| 0 <= l < r.tree.len() && r.tree[l] == file_node(files[j]);
        assert(r.tree[l].path == p);
    }
}

/// The node was there before or is that of one of the files.
pub open spec fn is_old_or_file(
    s: Seq<FsNodeView>,
    files: Seq<GrizolFileInfoView>,
    n: FsNodeView,
) -> bool {
    s.contains(n) || exists|i: int| 0 <= i < files.len() && n == file_node(#[trigger] files[i])
}

pub proof fn lemma_nodes_of_files(
    s: Seq<FsNodeView>,
    queue: Seq<GrizolFileInfoView>,
    tried: nat,
    n: FsNodeView,
)
    requires
        with_files(s, queue, tried).tree.contains(n),
    ensures
        is_old_or_file(s, queue, n),
    decreases queue.len(), queue.len() - tried,
{
    if tried < queue.len() {
        let others = queue.skip(1);
        if has_place(s, queue[0]) {
            let t = with_node(s, file_node(queue[0]));
            lemma_nodes_of_files(t, others, 0, n);
            lemma_without(s, file_path(queue[0]));
            if t.contains(n) {
                let w = without(s, file_path(queue[0]));
                let k = choose|k: int| 0 <= k < t.len() && t[k] == n;
                if k < w.len() {
                    assert(w[k] == n);
                } else {
                    assert(n == file_node(queue[0]));
                }
            } else {
                let i = choose|i: int|
                    0 <= i < others.len() && n == file_node(#[trigger] others[i]);
                assert(queue[i + 1] == others[i]);
            }
        } else {
            let rotated = others.push(queue[0]);
            lemma_nodes_of_files(s, rotated, tried + 1, n);
            if !s.contains(n) {
                let i = choose|i: int|
                    0 <= i < rotated.len() && n == file_node(#[trigger] rotated[i]);
                if i < others.len() {
                    assert(queue[i + 1] == rotated[i]);
                } else {
                    assert(queue[0] == rotated[i]);
                }
            }
        }
    }
}

/// The names of the folders differ.
pub open spec fn folder_names_differ(folders: Seq<GrizolFolderView>) -> bool {
    forall|i: int, j: int|
        0 <= i < j < folders.len() ==> (#[trigger] folders[i]).folder.id != (
        #[trigger] folders[j]).folder.id
}

} // verus!
