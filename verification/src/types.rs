//! Types that the parts of the client share.

use vstd::prelude::*;
use crate::bep_data_parser::{CompleteMessage, CompleteMessageView};
use crate::syncthing::{FileInfo, FileInfoView, Folder, FolderView};
use crate::wire::Message;

verus! {

/// Something that makes the client send data to a peer.
#[derive(Debug)]
pub enum GrizolEvent {
    Message(CompleteMessage),
    RequestProcessed,
    RequestCreated,
}

#[verifier::ext_equal]
pub enum GrizolEventView {
    Message(CompleteMessageView),
    RequestProcessed,
    RequestCreated,
}

impl View for GrizolEvent {
    type V = GrizolEventView;

    open spec fn view(&self) -> GrizolEventView {
        match *self {
            GrizolEvent::Message(m) => GrizolEventView::Message(m@),
            GrizolEvent::RequestProcessed => GrizolEventView::RequestProcessed,
            GrizolEvent::RequestCreated => GrizolEventView::RequestCreated,
        }
    }
}

impl Clone for GrizolEvent {
    fn clone(&self) -> (r: Self)
        ensures
            r@ == self@,
    {
        match self {
            GrizolEvent::Message(m) => GrizolEvent::Message(m.clone()),
            GrizolEvent::RequestProcessed => GrizolEvent::RequestProcessed,
            GrizolEvent::RequestCreated => GrizolEvent::RequestCreated,
        }
    }
}

/// A folder and the number it has in the database.
#[derive(Debug)]
pub struct GrizolFolder {
    pub folder: Folder,
    pub id: i64,
}

#[verifier::ext_equal]
pub struct GrizolFolderView {
    pub folder: FolderView,
    pub id: i64,
}

impl View for GrizolFolder {
    type V = GrizolFolderView;

    open spec fn view(&self) -> GrizolFolderView {
        GrizolFolderView { folder: self.folder@, id: self.id }
    }
}

impl Clone for GrizolFolder {
    fn clone(&self) -> (r: Self)
        ensures
            r@ == self@,
    {
        GrizolFolder { folder: self.folder.clone(), id: self.id }
    }
}

/// A place where files are kept.
#[derive(Debug)]
pub enum StorageBackend {
    /// A remote of the given name.
    Remote(String),
}

impl View for StorageBackend {
    type V = Seq<char>;

    open spec fn view(&self) -> Seq<char> {
        match *self {
            StorageBackend::Remote(name) => name@,
        }
    }
}

impl Clone for StorageBackend {
    fn clone(&self) -> (r: Self)
        ensures
            r@ == self@,
    {
        match self {
            StorageBackend::Remote(name) => StorageBackend::Remote(name.clone()),
        }
    }
}

/// Where a file is kept.
#[derive(Debug)]
pub struct FileLocation {
    pub location: String,
    pub storage_backend: StorageBackend,
}

#[verifier::ext_equal]
pub struct FileLocationView {
    pub location: Seq<char>,
    pub storage_backend: Seq<char>,
}

impl View for FileLocation {
    type V = FileLocationView;

    open spec fn view(&self) -> FileLocationView {
        FileLocationView { location: self.location@, storage_backend: self.storage_backend@ }
    }
}

impl Clone for FileLocation {
    fn clone(&self) -> (r: Self)
        ensures
            r@ == self@,
    {
        FileLocation {
            location: self.location.clone(),
            storage_backend: self.storage_backend.clone(),
        }
    }
}

/// A file, the number it has in the database, and where it is kept.
#[derive(Debug)]
pub struct GrizolFileInfo {
    pub file_info: FileInfo,
    pub id: i64,
    pub file_locations: Vec<FileLocation>,
    pub folder: String,
}

#[verifier::ext_equal]
pub struct GrizolFileInfoView {
    pub file_info: FileInfoView,
    pub id: i64,
    pub file_locations: Seq<FileLocationView>,
    pub folder: Seq<char>,
}

impl View for GrizolFileInfo {
    type V = GrizolFileInfoView;

    open spec fn view(&self) -> GrizolFileInfoView {
        GrizolFileInfoView {
            file_info: self.file_info@,
            id: self.id,
            file_locations: crate::views(self.file_locations@),
            folder: self.folder@,
        }
    }
}

impl Clone for GrizolFileInfo {
    fn clone(&self) -> (r: Self)
        ensures
            r@ == self@,
    {
        let r = GrizolFileInfo {
            file_info: self.file_info.clone(),
            id: self.id,
            file_locations: self.file_locations.clone(),
            folder: self.folder.clone(),
        };
        assert(crate::views(r.file_locations@) =~= crate::views(self.file_locations@));
        r
    }
}

impl Default for GrizolFileInfo {
    fn default() -> (r: Self)
        ensures
            r@.file_info == FileInfo::initial(),
            r.id == 0,
            r.file_locations@.len() == 0,
            r.folder@ == Seq::<char>::empty(),
    {
        GrizolFileInfo {
            file_info: FileInfo::empty(),
            id: 0,
            file_locations: Vec::new(),
            folder: String::new(),
        }
    }
}

/// Whether all blocks of a file have come.
#[derive(Debug, Clone, Copy, PartialEq, Eq, Structural)]
pub enum UploadStatus {
    BlocksMissing,
    AllBlocks,
}

} // verus!
