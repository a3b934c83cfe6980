//! What the client does with the messages of a peer.
//!
//! Reading and writing files and the database is left to the caller: the functions here
//! decide what is to be done next, given what has been done so far.

use vstd::prelude::*;
use crate::bep_data_parser::{CompleteMessage, CompleteMessageView};
use crate::bep_state;
use crate::bep_state::{BepState, BepStateView, BlockInfoExt, BlockInfoExtView, StateError};
use crate::config::{GrizolConfig, StorageStrategy};
use crate::device_id;
use crate::device_id::DeviceId;
use crate::indices;
use crate::outgoing_requests;
use crate::outgoing_requests::{OutgoingRequestView, OutgoingRequests};
use crate::statements;
use crate::statements::{Query, Statement, StatementView};
use crate::storage;
use crate::syncthing::{
    ClusterConfig, Counter, CounterView, FileInfo, FileInfoView, Folder, FolderView, Hello,
    HelloView, Index, IndexView, Request, RequestView, Response, ResponseView,
};
use crate::text;
use crate::types::{GrizolEvent, GrizolEventView, UploadStatus};
use crate::wire;

verus! {

// ---------------------------------------------------------------------------
// Comparing files

/// How one file relates to another.
#[derive(Debug, Clone, Copy, PartialEq, Eq, Structural)]
pub enum FileOrder {
    Older,
    Same,
    Newer,
}

/// The last of the counters with the highest value.
pub open spec fn max_counter(cs: Seq<CounterView>) -> CounterView
    decreases cs.len(),
{
    if cs.len() <= 1 {
        cs[0]
    } else {
        let m = max_counter(cs.drop_last());
        if cs.last().value >= m.value {
            cs.last()
        } else {
            m
        }
    }
}

/// The file has a version with a counter.
pub open spec fn has_version(f: FileInfoView) -> bool {
    f.version matches Some(v) && v.counters.len() > 0
}

/// How `a` relates to `b` by their versions; none where they are in conflict.
pub open spec fn version_order(a: FileInfoView, b: FileInfoView) -> Option<FileOrder> {
    let x = max_counter(a.version->0.counters);
    let y = max_counter(b.version->0.counters);
    if x.value < y.value {
        Some(FileOrder::Older)
    } else if x.value > y.value {
        Some(FileOrder::Newer)
    } else if x.id == y.id {
        Some(FileOrder::Same)
    } else {
        None
    }
}

/// How `a` relates to `b` by the times at which they were changed, and by their highest
/// counters where these are the same.
pub open spec fn timestamp_order(a: FileInfoView, b: FileInfoView) -> FileOrder {
    if a.modified_s < b.modified_s || a.modified_s == b.modified_s && a.modified_ns
        < b.modified_ns {
        FileOrder::Older
    } else if a.modified_s > b.modified_s || a.modified_s == b.modified_s && a.modified_ns
        > b.modified_ns {
        FileOrder::Newer
    } else {
        let x = max_counter(a.version->0.counters).value;
        let y = max_counter(b.version->0.counters).value;
        if x < y {
            FileOrder::Older
        } else if x > y {
            FileOrder::Newer
        } else {
            FileOrder::Same
        }
    }
}

fn find_max_counter(cs: &Vec<Counter>) -> (r: &Counter)
    requires
        cs@.len() > 0,
    ensures
        r@ == max_counter(crate::views(cs@)),
        exists|i: int| 0 <= i < cs@.len() && r@ == (#[trigger] cs@[i])@,
        forall|i: int| 0 <= i < cs@.len() ==> (#[trigger] cs@[i]).value <= r.value,
{
    let ghost all = crate::views(cs@);
    let mut best: usize = 0;
    let mut i: usize = 1;
    assert(all.take(1).len() == 1);
    assert(all.take(1)[0] == cs@[0]@);
    while i < cs.len()
        invariant
            1 <= i <= cs@.len(),
            best < i,
            all == crate::views(cs@),
            cs@[best as int]@ == max_counter(all.take(i as int)),
            forall|k: int| 0 <= k < i ==> (#[trigger] cs@[k]).value <= cs@[best as int].value,
        decreases cs@.len() - i,
    {
        proof {
            assert(all.take(i + 1).drop_last() =~= all.take(i as int));
            assert(all.take(i + 1).last() == cs@[i as int]@);
        }
        if cs[i].value >= cs[best].value {
            best = i;
        }
        i += 1;
    }
    assert(all.take(all.len() as int) =~= all);
    &cs[best]
}

fn highest_counter(f: &FileInfo) -> (r: Option<&Counter>)
    ensures
        match r {
            Some(c) => has_version(f@) && c@ == max_counter(f@.version->0.counters),
            None => !has_version(f@),
        },
{
    match &f.version {
        Some(v) => if v.counters.len() > 0 {
            Some(find_max_counter(&v.counters))
        } else {
            None
        },
        None => None,
    }
}

/// Compares files by their versions.
///
/// See <https://docs.syncthing.net/specs/bep-v1.html#fields-fileinfo-message>.
pub fn compare_versions(a: &FileInfo, b: &FileInfo) -> (r: Option<FileOrder>)
    requires
        has_version(a@),
        has_version(b@),
    ensures
        r == version_order(a@, b@),
{
    match (highest_counter(a), highest_counter(b)) {
        (Some(x), Some(y)) => if x.value < y.value {
            Some(FileOrder::Older)
        } else if x.value > y.value {
            Some(FileOrder::Newer)
        } else if x.id == y.id {
            Some(FileOrder::Same)
        } else {
            None
        },
        _ => None,
    }
}

/// Compares files by the times at which they were changed. This is used in case of
/// conflicts.
pub fn compare_timestamps(a: &FileInfo, b: &FileInfo) -> (r: FileOrder)
    requires
        has_version(a@),
        has_version(b@),
    ensures
        r == timestamp_order(a@, b@),
{
    if a.modified_s < b.modified_s || a.modified_s == b.modified_s && a.modified_ns
        < b.modified_ns {
        FileOrder::Older
    } else if a.modified_s > b.modified_s || a.modified_s == b.modified_s && a.modified_ns
        > b.modified_ns {
        FileOrder::Newer
    } else {
        match (highest_counter(a), highest_counter(b)) {
            (Some(x), Some(y)) => if x.value < y.value {
                FileOrder::Older
            } else if x.value > y.value {
                FileOrder::Newer
            } else {
                FileOrder::Same
            },
            _ => FileOrder::Same,
        }
    }
}

/// Why indices cannot be compared.
#[derive(Debug, Clone, Copy, PartialEq, Eq, Structural)]
pub enum DiffError {
    /// The indices cover different folders.
    DifferentFolders,
    /// A file that both indices have has no version in one of them.
    NoVersion,
    /// Two files in conflict were changed at the same time.
    SameTime,
}

/// How an error is reported.
pub open spec fn diff_error_text(error: DiffError) -> Seq<char> {
    match error {
        DiffError::DifferentFolders => "The indices cover different folders"@,
        DiffError::NoVersion => "A file has no version"@,
        DiffError::SameTime =>
            "It should mean we are comparing the same file, which should not happen"@,
    }
}

impl DiffError {
    /// How the error is reported.
    pub fn to_text(&self) -> (r: String)
        ensures
            r@ == diff_error_text(*self),
    {
        match self {
            DiffError::DifferentFolders => "The indices cover different folders".to_owned(),
            DiffError::NoVersion => "A file has no version".to_owned(),
            DiffError::SameTime =>
                "It should mean we are comparing the same file, which should not happen".to_owned(),
        }
    }
}

/// What is in an index and not, or not so, in another.
#[derive(Debug)]
pub struct IndexDiff {
    /// Files that are not in the other index, or older there.
    pub newly_added_files: Vec<FileInfo>,
    /// Files in conflict that were changed later than those in the other index.
    pub newly_added_conflicting_files: Vec<FileInfo>,
    /// Files in conflict that were changed earlier than those in the other index.
    pub existing_conflicting_files: Vec<FileInfo>,
}

#[verifier::ext_equal]
pub struct IndexDiffView {
    pub newly_added_files: Seq<FileInfoView>,
    pub newly_added_conflicting_files: Seq<FileInfoView>,
    pub existing_conflicting_files: Seq<FileInfoView>,
}

impl View for IndexDiff {
    type V = IndexDiffView;

    open spec fn view(&self) -> IndexDiffView {
        IndexDiffView {
            newly_added_files: crate::views(self.newly_added_files@),
            newly_added_conflicting_files: crate::views(self.newly_added_conflicting_files@),
            existing_conflicting_files: crate::views(self.existing_conflicting_files@),
        }
    }
}

pub open spec fn no_diff() -> IndexDiffView {
    IndexDiffView {
        newly_added_files: Seq::empty(),
        newly_added_conflicting_files: Seq::empty(),
        existing_conflicting_files: Seq::empty(),
    }
}

/// The difference with one more file taken into account.
pub open spec fn diff_with(
    d: IndexDiffView,
    existing: Map<Seq<char>, FileInfoView>,
    f: FileInfoView,
) -> Result<IndexDiffView, DiffError> {
    let added = IndexDiffView { newly_added_files: d.newly_added_files.push(f), ..d };
    if !existing.dom().contains(f.name) {
        Ok(added)
    } else {
        let e = existing[f.name];
        if !has_version(e) || !has_version(f) {
            Err(DiffError::NoVersion)
        } else {
            match version_order(e, f) {
                Some(FileOrder::Older) => Ok(added),
                Some(_) => Ok(d),
                None => match timestamp_order(e, f) {
                    FileOrder::Older => Ok(
                        IndexDiffView {
                            newly_added_conflicting_files: d.newly_added_conflicting_files.push(f),
                            ..d
                        },
                    ),
                    FileOrder::Newer => Ok(
                        IndexDiffView {
                            existing_conflicting_files: d.existing_conflicting_files.push(f),
                            ..d
                        },
                    ),
                    FileOrder::Same => Err(DiffError::SameTime),
                },
            }
        }
    }
}

/// What is in `added` and not, or not so, in `existing`.
pub open spec fn diff_files(added: Seq<FileInfoView>, existing: Map<Seq<char>, FileInfoView>) -> Result<
    IndexDiffView,
    DiffError,
>
    decreases added.len(),
{
    if added.len() == 0 {
        Ok(no_diff())
    } else {
        match diff_files(added.drop_last(), existing) {
            Err(e) => Err(e),
            Ok(d) => diff_with(d, existing, added.last()),
        }
    }
}

/// What is in one index of a folder and not, or not so, in another.
pub open spec fn diff_of(folder: Seq<char>, added: IndexView, existing: IndexView) -> Result<
    IndexDiffView,
    DiffError,
> {
    if added.folder != folder && existing.folder != folder {
        Err(DiffError::DifferentFolders)
    } else {
        diff_files(added.files, indices::by_name(existing.files))
    }
}

proof fn lemma_diff_err(
    added: Seq<FileInfoView>,
    existing: Map<Seq<char>, FileInfoView>,
    n: int,
)
    requires
        0 <= n <= added.len(),
        diff_files(added.take(n), existing) is Err,
    ensures
        diff_files(added, existing) == diff_files(added.take(n), existing),
    decreases added.len() - n,
{
    if n < added.len() {
        assert(added.take(n + 1).drop_last() =~= added.take(n));
        lemma_diff_err(added, existing, n + 1);
    } else {
        assert(added.take(n) =~= added);
    }
}

/// The last file with a name.
fn find_by_name<'a>(files: &'a Vec<FileInfo>, name: &String) -> (r: Option<&'a FileInfo>)
    ensures
        match r {
            Some(f) => indices::by_name(crate::views(files@)).dom().contains(name@)
                && indices::by_name(crate::views(files@))[name@] == f@,
            None => !indices::by_name(crate::views(files@)).dom().contains(name@),
        },
{
    let ghost all = crate::views(files@);
    let mut n: usize = files.len();
    assert(all.take(n as int) =~= all);
    while n > 0
        invariant
            n <= files@.len(),
            all == crate::views(files@),
            indices::by_name(all).dom().contains(name@) == indices::by_name(
                all.take(n as int),
            ).dom().contains(name@),
            indices::by_name(all).dom().contains(name@) ==> indices::by_name(all)[name@]
                == indices::by_name(all.take(n as int))[name@],
        decreases n,
    {
        proof {
            assert(all.take(n as int).drop_last() =~= all.take(n - 1));
            assert(all.take(n as int).last() == files@[n - 1]@);
        }
        if files[n - 1].name == *name {
            return Some(&files[n - 1]);
        }
        n -= 1;
    }
    None
}

/// Finds what is in one index of a folder and not, or not so, in another.
pub fn diff_indices(folder: &str, added_index: &Index, existing_index: &Index) -> (r: Result<
    IndexDiff,
    DiffError,
>)
    ensures
        match diff_of(folder@, added_index@, existing_index@) {
            Ok(d) => r matches Ok(x) && x@ == d,
            Err(e) => r == Err::<IndexDiff, DiffError>(e),
        },
{
    if !text::same_text(added_index.folder.as_str(), folder) && !text::same_text(
        existing_index.folder.as_str(),
        folder,
    ) {
        return Err(DiffError::DifferentFolders);
    }
    let ghost added = added_index@.files;
    let ghost existing = indices::by_name(existing_index@.files);
    let mut diff = IndexDiff {
        newly_added_files: Vec::new(),
        newly_added_conflicting_files: Vec::new(),
        existing_conflicting_files: Vec::new(),
    };
    assert(diff@ =~= no_diff());
    let mut i: usize = 0;
    while i < added_index.files.len()
        invariant
            i <= added_index.files@.len(),
            added == crate::views(added_index.files@),
            added == added_index@.files,
            existing == indices::by_name(existing_index@.files),
            existing_index@.files == crate::views(existing_index.files@),
            diff_files(added.take(i as int), existing) == Ok::<IndexDiffView, DiffError>(diff@),
            !(added_index@.folder != folder@ && existing_index@.folder != folder@),
        decreases added_index.files@.len() - i,
    {
        let f = &added_index.files[i];
        proof {
            assert(added.take(i + 1).drop_last() =~= added.take(i as int));
            assert(added.take(i + 1).last() == f@);
        }
        let ghost d = diff@;
        match find_by_name(&existing_index.files, &f.name) {
            None => {
                add_file(&mut diff.newly_added_files, f);
            },
            Some(e) => {
                if highest_counter(e).is_none() || highest_counter(f).is_none() {
                    proof {
                        lemma_diff_err(added, existing, i + 1);
                    }
                    return Err(DiffError::NoVersion);
                }
                match compare_versions(e, f) {
                    Some(FileOrder::Older) => {
                        add_file(&mut diff.newly_added_files, f);
                    },
                    Some(_) => {},
                    None => match compare_timestamps(e, f) {
                        FileOrder::Older => {
                            add_file(&mut diff.newly_added_conflicting_files, f);
                        },
                        FileOrder::Newer => {
                            add_file(&mut diff.existing_conflicting_files, f);
                        },
                        FileOrder::Same => {
                            proof {
                                lemma_diff_err(added, existing, i + 1);
                            }
                            return Err(DiffError::SameTime);
                        },
                    },
                }
            },
        }
        i += 1;
    }
    assert(added.take(added.len() as int) =~= added);
    Ok(diff)
}

fn add_file(files: &mut Vec<FileInfo>, f: &FileInfo)
    ensures
        crate::views(final(files)@) == crate::views(old(files)@).push(f@),
{
    let file = f.clone();
    proof {
        crate::lemma_views_push(files@, file);
    }
    files.push(file);
}

/// The file is neither missing nor older among the existing ones.
pub open spec fn is_settled(existing: Map<Seq<char>, FileInfoView>, f: FileInfoView) -> bool {
    &&& existing.dom().contains(f.name)
    &&& has_version(existing[f.name])
    &&& has_version(f)
    &&& version_order(existing[f.name], f) != Some(FileOrder::Older)
    &&& version_order(existing[f.name], f) is None ==> timestamp_order(existing[f.name], f)
        != FileOrder::Same
}

/// The files that are newly added come from the index, and every other file is settled.
proof fn lemma_newly_added(added: Seq<FileInfoView>, existing: Map<Seq<char>, FileInfoView>)
    requires
        diff_files(added, existing) is Ok,
    ensures
        forall|k: int|
            0 <= k < (diff_files(added, existing)->Ok_0).newly_added_files.len()
                ==> added.contains(
                #[trigger] (diff_files(added, existing)->Ok_0).newly_added_files[k],
            ),
        forall|i: int|
            0 <= i < added.len() ==> (diff_files(added, existing)->Ok_0).newly_added_files.contains(
                #[trigger] added[i],
            ) || is_settled(existing, added[i]),
    decreases added.len(),
{
    if added.len() > 0 {
        let front = added.drop_last();
        let f = added.last();
        lemma_newly_added(front, existing);
        let before = (diff_files(front, existing)->Ok_0).newly_added_files;
        let after = (diff_files(added, existing)->Ok_0).newly_added_files;
        assert(after == before || after == before.push(f));
        assert forall|k: int| 0 <= k < after.len() implies added.contains(#[trigger] after[k]) by {
            if k < before.len() {
                assert(after[k] == before[k]);
                let j = choose|j: int| 0 <= j < front.len() && front[j] == before[k];
                assert(added[j] == after[k]);
            } else {
                assert(added[added.len() - 1] == after[k]);
            }
        }
        assert forall|i: int| 0 <= i < added.len() implies after.contains(#[trigger] added[i])
            || is_settled(existing, added[i]) by {
            if i < front.len() {
                assert(front[i] == added[i]);
                if before.contains(front[i]) {
                    let k = choose|k: int| 0 <= k < before.len() && before[k] == front[i];
                    assert(after[k] == added[i]);
                }
            } else if after == before.push(f) {
                assert(after[before.len() as int] == f);
            }
        }
    }
}

proof fn lemma_settled_no_diff(added: Seq<FileInfoView>, existing: Map<Seq<char>, FileInfoView>)
    requires
        forall|i: int| 0 <= i < added.len() ==> is_settled(existing, #[trigger] added[i]),
    ensures
        diff_files(added, existing) matches Ok(d) && d.newly_added_files.len() == 0,
    decreases added.len(),
{
    if added.len() > 0 {
        let front = added.drop_last();
        assert forall|i: int| 0 <= i < front.len() implies is_settled(
            existing,
            #[trigger] front[i],
        ) by {
            assert(is_settled(existing, added[i]));
        }
        assert(is_settled(existing, added[added.len() - 1]));
        lemma_settled_no_diff(front, existing);
    }
}

/// Once the files that are newly added have been taken over, the index adds none.
pub proof fn law_diff_settles(added: Seq<FileInfoView>, existing: Map<Seq<char>, FileInfoView>)
    requires
        indices::names_distinct(added),
        forall|i: int| 0 <= i < added.len() ==> has_version(#[trigger] added[i]),
        diff_files(added, existing) is Ok,
    ensures
        ({
            let newly = (diff_files(added, existing)->Ok_0).newly_added_files;
            let taken_over = existing.union_prefer_right(indices::by_name(newly));
            diff_files(added, taken_over) matches Ok(d) && d.newly_added_files.len() == 0
        }),
{
    let newly = (diff_files(added, existing)->Ok_0).newly_added_files;
    let m = indices::by_name(newly);
    let taken_over = existing.union_prefer_right(m);
    lemma_newly_added(added, existing);
    assert forall|i: int| 0 <= i < added.len() implies is_settled(
        taken_over,
        #[trigger] added[i],
    ) by {
        let f = added[i];
        assert(has_version(f));
        if m.dom().contains(f.name) {
            lemma_by_name_member(newly, f.name);
            indices::lemma_by_name_named(newly, f.name);
            let g = m[f.name];
            let k = choose|k: int| 0 <= k < newly.len() && newly[k] == g;
            assert(added.contains(newly[k]));
            let j = choose|j: int| 0 <= j < added.len() && added[j] == g;
            if j < i {
                assert(added[j].name != added[i].name);
            } else if i < j {
                assert(added[i].name != added[j].name);
            }
            assert(g == f);
        } else {
            if newly.contains(f) {
                lemma_by_name_has(newly, f);
            }
        }
    }
    lemma_settled_no_diff(added, taken_over);
}

proof fn lemma_by_name_member(files: Seq<FileInfoView>, name: Seq<char>)
    requires
        indices::by_name(files).dom().contains(name),
    ensures
        files.contains(indices::by_name(files)[name]),
    decreases files.len(),
{
    if files.len() > 0 {
        if name == files.last().name {
            assert(files[files.len() - 1] == indices::by_name(files)[name]);
        } else {
            let front = files.drop_last();
            lemma_by_name_member(front, name);
            let j = choose|j: int| 0 <= j < front.len() && front[j] == indices::by_name(front)[name];
            assert(files[j] == indices::by_name(files)[name]);
        }
    }
}

proof fn lemma_by_name_has(files: Seq<FileInfoView>, f: FileInfoView)
    requires
        files.contains(f),
    ensures
        indices::by_name(files).dom().contains(f.name),
    decreases files.len(),
{
    if f.name != files.last().name {
        let front = files.drop_last();
        let j = choose|j: int| 0 <= j < files.len() && files[j] == f;
        assert(front[j] == f);
        lemma_by_name_has(front, f);
    }
}

// ---------------------------------------------------------------------------
// Requests

/// The requests for blocks, with ids from the one after `base` on.
pub open spec fn requests_for(base: i32, blocks: Seq<BlockInfoExtView>) -> Seq<RequestView> {
    Seq::new(
        blocks.len(),
        |i: int|
            RequestView {
                id: (base + i + 1) as i32,
                folder: blocks[i].folder,
                name: blocks[i].name,
                offset: blocks[i].offset,
                size: blocks[i].size,
                hash: blocks[i].hash,
                from_temporary: false,
            },
    )
}

/// Makes requests for blocks, with ids from the one after `base_request_id` on.
pub fn requests_from_blocks(base_request_id: i32, block_ids: &Vec<BlockInfoExt>) -> (r: Vec<Request>)
    requires
        base_request_id + block_ids@.len() <= i32::MAX,
    ensures
        crate::views(r@) == requests_for(base_request_id, crate::views(block_ids@)),
        r@.len() == block_ids@.len(),
        forall|i: int|
            0 <= i < r@.len() ==> {
                &&& (#[trigger] r@[i]).folder@ == block_ids@[i].folder@
                &&& r@[i].name@ == block_ids@[i].name@
                &&& r@[i].offset == block_ids@[i].offset
                &&& r@[i].size == block_ids@[i].size
                &&& r@[i].hash@ == block_ids@[i].hash@
                &&& !r@[i].from_temporary
                &&& r@[i].id == base_request_id + i + 1
            },
{
    let mut request_id: i32 = base_request_id;
    let mut res: Vec<Request> = Vec::new();
    let mut i: usize = 0;
    while i < block_ids.len()
        invariant
            i <= block_ids@.len(),
            base_request_id + block_ids@.len() <= i32::MAX,
            request_id == base_request_id + i,
            res@.len() == i,
            forall|j: int|
                0 <= j < i ==> (#[trigger] res@[j])@ == requests_for(
                    base_request_id,
                    crate::views(block_ids@),
                )[j],
            forall|j: int|
                0 <= j < i ==> {
                    &&& (#[trigger] res@[j]).folder@ == block_ids@[j].folder@
                    &&& res@[j].name@ == block_ids@[j].name@
                    &&& res@[j].offset == block_ids@[j].offset
                    &&& res@[j].size == block_ids@[j].size
                    &&& res@[j].hash@ == block_ids@[j].hash@
                    &&& !res@[j].from_temporary
                    &&& res@[j].id == base_request_id + j + 1
                },
        decreases block_ids@.len() - i,
    {
        request_id += 1;
        let block = &block_ids[i];
        res.push(
            Request {
                id: request_id,
                folder: block.folder.clone(),
                name: block.name.clone(),
                offset: block.offset,
                size: block.size,
                hash: vstd::slice::slice_to_vec(block.hash.as_slice()),
                from_temporary: false,
            },
        );
        i += 1;
    }
    assert(crate::views(res@) =~= requests_for(base_request_id, crate::views(block_ids@)));
    res
}

/// No request in the queue has an id above the given one.
pub open spec fn ids_up_to(q: Seq<OutgoingRequestView>, id: i32) -> bool {
    forall|i: int| 0 <= i < q.len() ==> (#[trigger] q[i]).id <= id
}

/// The queue after requests were put in at `now`, and those that were not there before.
pub open spec fn enqueued(q: Seq<OutgoingRequestView>, rs: Seq<RequestView>, now: u64) -> (
    Seq<OutgoingRequestView>,
    Seq<RequestView>,
)
    decreases rs.len(),
{
    if rs.len() == 0 {
        (q, Seq::empty())
    } else {
        let before = enqueued(q, rs.drop_last(), now);
        let r = rs.last();
        if outgoing_requests::has_same(before.0, r) {
            before
        } else {
            (outgoing_requests::with_request(before.0, r.id, r, now), before.1.push(r))
        }
    }
}

/// All hashes are as long as a SHA-256 digest.
pub open spec fn hashes_ok(blocks: Seq<BlockInfoExtView>) -> bool {
    forall|i: int| 0 <= i < blocks.len() ==> (#[trigger] blocks[i]).hash.len() == 32
}

/// The state and the queue after blocks were asked for at `now`, and the requests that
/// were not in the queue before.
pub open spec fn are_requested(
    state: BepStateView,
    queue: Seq<OutgoingRequestView>,
    blocks: Seq<BlockInfoExtView>,
    now: u64,
    state_after: BepStateView,
    queue_after: Seq<OutgoingRequestView>,
    inserted: Seq<RequestView>,
) -> bool {
    let after = enqueued(queue, requests_for(state.request_id, blocks), now);
    &&& inserted == after.1
    &&& queue_after == after.0
    &&& state_after == (BepStateView {
        request_id: (state.request_id + blocks.len()) as i32,
        requests: bep_state::with_requests(state.requests, after.1),
        ..state
    })
}

/// Makes requests for blocks and puts them into the queue, as of `now`. Returns those
/// that were not in the queue before.
pub fn store_outgoing_requests_at(
    state: &mut BepState,
    queue: &mut OutgoingRequests,
    unstored_blocks: &Vec<BlockInfoExt>,
    now: u64,
) -> (r: Vec<Request>)
    requires
        old(queue).wf(),
        old(state)@.request_id + unstored_blocks@.len() <= i32::MAX,
        unstored_blocks@.len() <= i32::MAX,
        hashes_ok(crate::views(unstored_blocks@)),
        ids_up_to(old(queue)@, old(state)@.request_id),
    ensures
        final(queue).wf(),
        ids_up_to(final(queue)@, final(state)@.request_id),
        are_requested(
            old(state)@,
            old(queue)@,
            crate::views(unstored_blocks@),
            now,
            final(state)@,
            final(queue)@,
            crate::views(r@),
        ),
{
    let base_req_id: i32 = state.load_request_id();
    let requests = requests_from_blocks(base_req_id, unstored_blocks);
    let ghost all = requests_for(base_req_id, crate::views(unstored_blocks@));
    let ghost q0 = queue@;
    let mut inserted: Vec<Request> = Vec::new();
    let mut i: usize = 0;
    assert(requests@.len() == all.len());
    assert(all.len() == unstored_blocks@.len());
    assert forall|j: int| 0 <= j < all.len() implies (#[trigger] all[j]).hash.len() == 32 by {
        assert(crate::views(unstored_blocks@)[j].hash.len() == 32);
    }
    assert(all.take(0) =~= Seq::empty());
    assert(crate::views(inserted@) =~= Seq::empty());
    while i < requests.len()
        invariant
            i <= requests@.len(),
            base_req_id + requests@.len() <= i32::MAX,
            all == crate::views(requests@),
            forall|j: int| 0 <= j < all.len() ==> (#[trigger] all[j]).id == base_req_id + j + 1,
            forall|j: int| 0 <= j < all.len() ==> (#[trigger] all[j]).hash.len() == 32,
            queue.wf(),
            ids_up_to(queue@, (base_req_id + i) as i32),
            queue@ == enqueued(q0, all.take(i as int), now).0,
            crate::views(inserted@) == enqueued(q0, all.take(i as int), now).1,
        decreases requests@.len() - i,
    {
        let request = requests[i].clone();
        let ghost before = queue@;
        proof {
            assert(all.take(i + 1).drop_last() =~= all.take(i as int));
            assert(all.take(i + 1).last() == request@);
            assert(all[i as int] == request@);
            assert forall|j: int| !outgoing_requests::is_at(queue@, request.id, j) by {
                if 0 <= j < queue@.len() {
                    assert(queue@[j].id <= base_req_id + i);
                }
            }
        }
        let id: i32 = request.id;
        match queue.insert_at(id, request, now) {
            Some(r) => {
                proof {
                    crate::lemma_views_push(inserted@, r);
                }
                inserted.push(r);
            },
            None => {},
        }
        proof {
            outgoing_requests::lemma_place_within(before, all[i as int]);
            assert forall|j: int| 0 <= j < queue@.len() implies (#[trigger] queue@[j]).id
                <= base_req_id + i + 1 by {
                let p = outgoing_requests::place_of(before, all[i as int]) as int;
                if queue@ != before {
                    if j < p {
                        assert(queue@[j] == before[j]);
                    } else if j > p {
                        assert(queue@[j] == before[j - 1]);
                    }
                }
            }
        }
        i += 1;
    }
    assert(all.take(all.len() as int) =~= all);
    let _ = state.fetch_add_request_id(requests.len() as i32);
    state.insert_requests(&inserted);
    inserted
}

/// Makes requests for blocks and puts them into the queue. Returns those that were not
/// in the queue before.
pub fn store_outgoing_requests(
    state: &mut BepState,
    queue: &mut OutgoingRequests,
    unstored_blocks: &Vec<BlockInfoExt>,
) -> (r: Vec<Request>)
    requires
        old(queue).wf(),
        old(state)@.request_id + unstored_blocks@.len() <= i32::MAX,
        unstored_blocks@.len() <= i32::MAX,
        hashes_ok(crate::views(unstored_blocks@)),
        ids_up_to(old(queue)@, old(state)@.request_id),
    ensures
        final(queue).wf(),
        ids_up_to(final(queue)@, final(state)@.request_id),
        exists|now: u64| #[trigger]
            are_requested(
                old(state)@,
                old(queue)@,
                crate::views(unstored_blocks@),
                now,
                final(state)@,
                final(queue)@,
                crate::views(r@),
            ),
{
    let now: u64 = queue.now();
    store_outgoing_requests_at(state, queue, unstored_blocks, now)
}

/// Whether blocks can be asked for: the ids do not run out and the hashes are digests.
pub fn can_request(state: &BepState, unstored_blocks: &Vec<BlockInfoExt>) -> (r: bool)
    ensures
        r == (state@.request_id + unstored_blocks@.len() <= i32::MAX && unstored_blocks@.len()
            <= i32::MAX && hashes_ok(crate::views(unstored_blocks@))),
{
    let n: u64 = unstored_blocks.len() as u64;
    if n > i32::MAX as u64 || state.load_request_id() as i64 + n as i64 > i32::MAX as i64 {
        return false;
    }
    let ghost all = crate::views(unstored_blocks@);
    let mut i: usize = 0;
    while i < unstored_blocks.len()
        invariant
            i <= unstored_blocks@.len(),
            all == crate::views(unstored_blocks@),
            forall|j: int| 0 <= j < i ==> (#[trigger] all[j]).hash.len() == 32,
        decreases unstored_blocks@.len() - i,
    {
        assert(all[i as int] == unstored_blocks@[i as int]@);
        if unstored_blocks[i].hash.len() != 32 {
            return false;
        }
        i += 1;
    }
    true
}

// ---------------------------------------------------------------------------
// Responses

/// Why a message of a peer could not be dealt with.
#[derive(Debug, PartialEq)]
pub enum BepProcessorError {
    NoAssociatedReqeust(String),
    WrongDataInResponse(String),
    ErrorInResponse(String),
    FileNotInIndex(String),
    StorageError(String),
    StateError(String),
}

#[verifier::ext_equal]
pub enum BepProcessorErrorView {
    NoAssociatedReqeust(Seq<char>),
    WrongDataInResponse(Seq<char>),
    ErrorInResponse(Seq<char>),
    FileNotInIndex(Seq<char>),
    StorageError(Seq<char>),
    StateError(Seq<char>),
}

impl View for BepProcessorError {
    type V = BepProcessorErrorView;

    open spec fn view(&self) -> BepProcessorErrorView {
        match *self {
            BepProcessorError::NoAssociatedReqeust(m) => BepProcessorErrorView::NoAssociatedReqeust(
                m@,
            ),
            BepProcessorError::WrongDataInResponse(m) => BepProcessorErrorView::WrongDataInResponse(
                m@,
            ),
            BepProcessorError::ErrorInResponse(m) => BepProcessorErrorView::ErrorInResponse(m@),
            BepProcessorError::FileNotInIndex(m) => BepProcessorErrorView::FileNotInIndex(m@),
            BepProcessorError::StorageError(m) => BepProcessorErrorView::StorageError(m@),
            BepProcessorError::StateError(m) => BepProcessorErrorView::StateError(m@),
        }
    }
}

/// The error in words.
pub open spec fn error_text(e: BepProcessorErrorView) -> Seq<char> {
    match e {
        BepProcessorErrorView::NoAssociatedReqeust(m) => "NoAssociatedReqeust: "@ + m,
        BepProcessorErrorView::WrongDataInResponse(m) => "WrongDataInResponse: "@ + m,
        BepProcessorErrorView::ErrorInResponse(m) => "ErrorInResponse: "@ + m,
        BepProcessorErrorView::FileNotInIndex(m) => "FileNotInIndex: "@ + m,
        BepProcessorErrorView::StorageError(m) => "StorageError: "@ + m,
        BepProcessorErrorView::StateError(m) => "StateError: "@ + m,
    }
}

fn prefixed(prefix: &str, m: &String) -> (r: String)
    ensures
        r@ == prefix@ + m@,
{
    let mut out = prefix.to_owned();
    out.append(m.as_str());
    out
}

impl BepProcessorError {
    /// The error in words.
    pub fn to_string(&self) -> (r: String)
        ensures
            r@ == error_text(self@),
    {
        match self {
            BepProcessorError::NoAssociatedReqeust(m) => prefixed("NoAssociatedReqeust: ", m),
            BepProcessorError::WrongDataInResponse(m) => prefixed("WrongDataInResponse: ", m),
            BepProcessorError::ErrorInResponse(m) => prefixed("ErrorInResponse: ", m),
            BepProcessorError::FileNotInIndex(m) => prefixed("FileNotInIndex: ", m),
            BepProcessorError::StorageError(m) => prefixed("StorageError: ", m),
            BepProcessorError::StateError(m) => prefixed("StateError: ", m),
        }
    }
}

pub open spec fn unknown_request(id: i32) -> BepProcessorErrorView {
    BepProcessorErrorView::NoAssociatedReqeust(
        "Response with id "@ + text::signed_decimal(id as int)
            + " does not have a corresponding request"@,
    )
}

/// A request in words.
pub open spec fn request_text(r: RequestView) -> Seq<char> {
    "Request { id: "@ + text::signed_decimal(r.id as int) + ", folder: "@ + text::debug_text(
        r.folder,
    ) + ", name: "@ + text::debug_text(r.name) + ", offset: "@ + text::signed_decimal(
        r.offset as int,
    ) + ", size: "@ + text::signed_decimal(r.size as int) + ", hash: "@ + text::bytes_listed(
        r.hash,
    ) + ", from_temporary: "@ + (if r.from_temporary {
        "true"@
    } else {
        "false"@
    }) + " }"@
}

/// That data is not what was asked for, in words.
pub open spec fn mismatch_text(hash: Seq<u8>, digest: Seq<u8>) -> Seq<char> {
    "Hash of incoming data does not match requested data, expected "@ + text::bytes_listed(hash)
        + ", got "@ + text::bytes_listed(digest)
}

pub open spec fn wrong_data(r: RequestView, digest: Seq<u8>) -> BepProcessorErrorView {
    BepProcessorErrorView::WrongDataInResponse(
        "Wrong data received for request "@ + request_text(r) + ": "@ + mismatch_text(
            r.hash,
            digest,
        ),
    )
}

pub open spec fn response_with_error(id: i32, code: i32) -> BepProcessorErrorView {
    BepProcessorErrorView::ErrorInResponse(
        "Request with id "@ + text::signed_decimal(id as int)
            + " genereated response containing error: "@ + text::signed_decimal(code as int) + " "@,
    )
}

pub open spec fn not_in_index(name: Seq<char>) -> BepProcessorErrorView {
    BepProcessorErrorView::FileNotInIndex("Requesting a file not in the local index: "@ + name)
}

/// Why the data of a response is not stored, given its digest.
pub open spec fn response_error(
    requests: Map<i32, RequestView>,
    response: ResponseView,
    digest: Seq<u8>,
) -> Option<BepProcessorErrorView> {
    if response.code != 0 {
        Some(response_with_error(response.id, response.code))
    } else if !requests.dom().contains(response.id) {
        Some(unknown_request(response.id))
    } else if digest != requests[response.id].hash {
        Some(wrong_data(requests[response.id], digest))
    } else {
        None
    }
}

fn make_request_text(r: &Request) -> (t: String)
    ensures
        t@ == request_text(r@),
{
    let mut out = "Request { id: ".to_owned();
    out.append(text::signed_text(r.id as i64).as_str());
    out.append(", folder: ");
    out.append(text::quoted(r.folder.as_str()).as_str());
    out.append(", name: ");
    out.append(text::quoted(r.name.as_str()).as_str());
    out.append(", offset: ");
    out.append(text::signed_text(r.offset).as_str());
    out.append(", size: ");
    out.append(text::signed_text(r.size as i64).as_str());
    out.append(", hash: ");
    out.append(text::bytes_text(r.hash.as_slice()).as_str());
    out.append(", from_temporary: ");
    if r.from_temporary {
        out.append("true");
    } else {
        out.append("false");
    }
    out.append(" }");
    out
}

/// Checks that data is what was asked for, by its digest.
pub fn check_data(data: &[u8], hash: &Vec<u8>) -> (r: Result<(), String>)
    ensures
        if device_id::sha256_of(data@) == hash@ {
            r is Ok
        } else {
            r matches Err(m) && m@ == mismatch_text(hash@, device_id::sha256_of(data@))
        },
{
    check_digest(&device_id::sha256(data), hash)
}

/// The same, given the digest of the data.
pub fn check_digest(digest: &[u8; 32], hash: &Vec<u8>) -> (r: Result<(), String>)
    ensures
        if digest@ == hash@ {
            r is Ok
        } else {
            r matches Err(m) && m@ == mismatch_text(hash@, digest@)
        },
{
    if storage::digest_matches(digest, hash) {
        return Ok(());
    }
    let mut m = "Hash of incoming data does not match requested data, expected ".to_owned();
    m.append(text::bytes_text(hash.as_slice()).as_str());
    m.append(", got ");
    m.append(text::bytes_text(digest.as_slice()).as_str());
    Err(m)
}

/// Looks for the request that a response answers; the data has to be what was asked for.
pub fn begin_response(state: &BepState, response: &Response) -> (r: Result<
    Request,
    BepProcessorError,
>)
    ensures
        match response_error(
            state@.requests,
            response@,
            device_id::sha256_of(response@.data),
        ) {
            Some(e) => r matches Err(x) && x@ == e,
            None => r matches Ok(x) && x@ == state@.requests[response@.id],
        },
{
    let digest = device_id::sha256(response.data.as_slice());
    begin_response_with(state, response, &digest)
}

/// The same, given the digest of the data.
pub fn begin_response_with(state: &BepState, response: &Response, digest: &[u8; 32]) -> (r: Result<
    Request,
    BepProcessorError,
>)
    ensures
        match response_error(state@.requests, response@, digest@) {
            Some(e) => r matches Err(x) && x@ == e,
            None => r matches Ok(x) && x@ == state@.requests[response@.id],
        },
{
    if response.code != 0 {
        let mut m = "Request with id ".to_owned();
        m.append(text::signed_text(response.id as i64).as_str());
        m.append(" genereated response containing error: ");
        m.append(text::signed_text(response.code as i64).as_str());
        m.append(" ");
        return Err(BepProcessorError::ErrorInResponse(m));
    }
    match state.get_request(&response.id) {
        Some(request) => match check_digest(digest, &request.hash) {
            Ok(_) => Ok(request.clone()),
            Err(e) => {
                let mut m = "Wrong data received for request ".to_owned();
                m.append(make_request_text(request).as_str());
                m.append(": ");
                m.append(e.as_str());
                Err(BepProcessorError::WrongDataInResponse(m))
            },
        },
        None => {
            let mut m = "Response with id ".to_owned();
            m.append(text::signed_text(response.id as i64).as_str());
            m.append(" does not have a corresponding request");
            Err(BepProcessorError::NoAssociatedReqeust(m))
        },
    }
}

/// The weak hash of data.
pub fn compute_weak_hash(_data: &Vec<u8>) -> (r: u32)
    ensures
        r == 0,
{
    0
}

/// What has been done of storing the data of a response.
#[derive(Debug, Clone, Copy, PartialEq, Eq, Structural)]
pub enum ResponseStage {
    /// The size of the file is being looked up.
    Sizing,
    /// The block is being written.
    Storing,
    /// The database is told that the block is stored.
    Marking,
    /// The file is being copied to the storage backends.
    Copying,
    /// The database is told where the file is kept.
    Locating,
    /// The database is told that the file is not kept on this device any more.
    Unlocating,
    /// The file on this device is being removed.
    Removing,
    /// The request is being forgotten.
    Forgetting,
    /// All is done.
    Done,
}

/// What has come of the last action.
#[derive(Debug)]
pub enum ResponseReply {
    /// The size of the file in the local index, where it is there.
    FileSize(Option<i64>),
    /// Whether what was to be done was done, or why not.
    Did(Result<(), String>),
    /// Whether all blocks are stored, or why that cannot be said.
    Status(Result<UploadStatus, String>),
    /// The storage backends and where the file is kept on them.
    Copied(Result<Vec<(String, String)>, String>),
}

/// What is to be done next.
#[derive(Debug)]
pub enum ResponseAction {
    /// Write the block into a file of this size.
    StoreBlock(u64),
    /// Tell the database that the block is stored, and count the blocks.
    MarkBlock,
    /// Copy the file to the storage backends.
    CopyToRemote,
    /// Tell the database where the file is kept.
    WriteLocations(Vec<(String, String)>),
    /// Tell the database that the file is not kept on this device any more.
    ForgetLocalLocation,
    /// Remove the file from this device.
    RemoveLocalFile,
    /// Forget the request.
    ForgetRequest,
    /// Nothing: the response has been dealt with.
    Finish,
    /// Nothing: it could not be dealt with.
    Fail(BepProcessorError),
}

/// The reply is one that can come at this stage.
pub open spec fn fits(stage: ResponseStage, reply: ResponseReply) -> bool {
    match stage {
        ResponseStage::Sizing => reply is FileSize,
        ResponseStage::Marking => reply is Status,
        ResponseStage::Copying => reply is Copied,
        ResponseStage::Done => false,
        _ => reply is Did,
    }
}

/// What is done once all blocks of a file are stored, or once it has been copied.
pub open spec fn after_upload(strategy: StorageStrategy, copied: bool) -> ResponseStage {
    if !copied && (strategy == StorageStrategy::Remote || strategy
        == StorageStrategy::LocalRemote) {
        ResponseStage::Copying
    } else if strategy == StorageStrategy::Remote {
        ResponseStage::Unlocating
    } else {
        ResponseStage::Forgetting
    }
}

/// The stage after a reply; none where the reply ends it with an error.
pub open spec fn next_stage(
    stage: ResponseStage,
    strategy: StorageStrategy,
    reply: ResponseReply,
) -> Option<ResponseStage> {
    match reply {
        ResponseReply::FileSize(size) => match size {
            Some(n) => if n >= 0 {
                Some(ResponseStage::Storing)
            } else {
                None
            },
            None => None,
        },
        ResponseReply::Status(status) => match status {
            Ok(UploadStatus::AllBlocks) => Some(after_upload(strategy, false)),
            Ok(UploadStatus::BlocksMissing) => Some(ResponseStage::Forgetting),
            Err(_) => None,
        },
        ResponseReply::Copied(locations) => match locations {
            Ok(_) => Some(ResponseStage::Locating),
            Err(_) => None,
        },
        ResponseReply::Did(outcome) => match outcome {
            Err(_) => None,
            Ok(_) => match stage {
                ResponseStage::Storing => Some(ResponseStage::Marking),
                ResponseStage::Locating => Some(after_upload(strategy, true)),
                ResponseStage::Unlocating => Some(ResponseStage::Removing),
                ResponseStage::Removing => Some(ResponseStage::Forgetting),
                _ => Some(ResponseStage::Done),
            },
        },
    }
}

/// The action is the one that the stage is about.
pub open spec fn is_action(stage: ResponseStage, reply: ResponseReply, action: ResponseAction) -> bool {
    match stage {
        ResponseStage::Sizing => false,
        ResponseStage::Storing => action matches ResponseAction::StoreBlock(n) && reply
            matches ResponseReply::FileSize(Some(m)) && n == m,
        ResponseStage::Marking => action is MarkBlock,
        ResponseStage::Copying => action is CopyToRemote,
        ResponseStage::Locating => action matches ResponseAction::WriteLocations(a) && reply
            matches ResponseReply::Copied(Ok(b)) && a == b,
        ResponseStage::Unlocating => action is ForgetLocalLocation,
        ResponseStage::Removing => action is RemoveLocalFile,
        ResponseStage::Forgetting => action is ForgetRequest,
        ResponseStage::Done => action is Finish,
    }
}

/// The error that a reply ends with.
pub open spec fn failure(
    stage: ResponseStage,
    name: Seq<char>,
    reply: ResponseReply,
) -> BepProcessorErrorView {
    match reply {
        ResponseReply::FileSize(size) => match size {
            None => not_in_index(name),
            Some(_) => BepProcessorErrorView::StateError("The file size is negative"@),
        },
        ResponseReply::Status(status) => BepProcessorErrorView::StateError(status->Err_0@),
        ResponseReply::Copied(locations) => BepProcessorErrorView::StorageError(
            locations->Err_0@,
        ),
        ResponseReply::Did(outcome) => if stage == ResponseStage::Storing || stage
            == ResponseStage::Removing {
            BepProcessorErrorView::StorageError(outcome->Err_0@)
        } else {
            BepProcessorErrorView::StateError(outcome->Err_0@)
        },
    }
}

/// Stores the data of a response, step by step. The first step is to look up the size of
/// the file.
#[derive(Debug)]
pub struct ResponseFlow {
    stage: ResponseStage,
    strategy: StorageStrategy,
    name: String,
}

impl ResponseFlow {
    pub closed spec fn stage(&self) -> ResponseStage {
        self.stage
    }

    pub closed spec fn strategy(&self) -> StorageStrategy {
        self.strategy
    }

    pub closed spec fn name(&self) -> Seq<char> {
        self.name@
    }

    /// Starts to store the data for a request.
    pub fn new(request: &Request, strategy: StorageStrategy) -> (r: Self)
        ensures
            r.stage() == ResponseStage::Sizing,
            r.strategy() == strategy,
            r.name() == request@.name,
    {
        ResponseFlow { stage: ResponseStage::Sizing, strategy, name: request.name.clone() }
    }

    /// Decides what is to be done next, given what has come of the last action.
    pub fn next(&mut self, reply: ResponseReply) -> (r: ResponseAction)
        requires
            fits(old(self).stage(), reply),
        ensures
            final(self).strategy() == old(self).strategy(),
            final(self).name() == old(self).name(),
            match next_stage(old(self).stage(), old(self).strategy(), reply) {
                Some(stage) => final(self).stage() == stage && is_action(stage, reply, r),
                None => {
                    &&& final(self).stage() == ResponseStage::Done
                    &&& r matches ResponseAction::Fail(e)
                    &&& e@ == failure(old(self).stage(), old(self).name(), reply)
                },
            },
    {
        match reply {
            ResponseReply::FileSize(size) => match size {
                Some(n) => if n >= 0 {
                    self.stage = ResponseStage::Storing;
                    ResponseAction::StoreBlock(n as u64)
                } else {
                    self.stage = ResponseStage::Done;
                    ResponseAction::Fail(
                        BepProcessorError::StateError("The file size is negative".to_owned()),
                    )
                },
                None => {
                    self.stage = ResponseStage::Done;
                    ResponseAction::Fail(
                        BepProcessorError::FileNotInIndex(
                            prefixed("Requesting a file not in the local index: ", &self.name),
                        ),
                    )
                },
            },
            ResponseReply::Status(status) => match status {
                Ok(UploadStatus::AllBlocks) => self.after_upload(false),
                Ok(UploadStatus::BlocksMissing) => {
                    self.stage = ResponseStage::Forgetting;
                    ResponseAction::ForgetRequest
                },
                Err(m) => {
                    self.stage = ResponseStage::Done;
                    ResponseAction::Fail(BepProcessorError::StateError(m))
                },
            },
            ResponseReply::Copied(locations) => match locations {
                Ok(x) => {
                    self.stage = ResponseStage::Locating;
                    ResponseAction::WriteLocations(x)
                },
                Err(m) => {
                    self.stage = ResponseStage::Done;
                    ResponseAction::Fail(BepProcessorError::StorageError(m))
                },
            },
            ResponseReply::Did(outcome) => match outcome {
                Err(m) => {
                    let storage = match self.stage {
                        ResponseStage::Storing | ResponseStage::Removing => true,
                        _ => false,
                    };
                    self.stage = ResponseStage::Done;
                    if storage {
                        ResponseAction::Fail(BepProcessorError::StorageError(m))
                    } else {
                        ResponseAction::Fail(BepProcessorError::StateError(m))
                    }
                },
                Ok(_) => match self.stage {
                    ResponseStage::Storing => {
                        self.stage = ResponseStage::Marking;
                        ResponseAction::MarkBlock
                    },
                    ResponseStage::Locating => self.after_upload(true),
                    ResponseStage::Unlocating => {
                        self.stage = ResponseStage::Removing;
                        ResponseAction::RemoveLocalFile
                    },
                    ResponseStage::Removing => {
                        self.stage = ResponseStage::Forgetting;
                        ResponseAction::ForgetRequest
                    },
                    _ => {
                        self.stage = ResponseStage::Done;
                        ResponseAction::Finish
                    },
                },
            },
        }
    }

    fn after_upload(&mut self, copied: bool) -> (r: ResponseAction)
        ensures
            final(self).strategy() == old(self).strategy(),
            final(self).name() == old(self).name(),
            final(self).stage() == after_upload(old(self).strategy(), copied),
            match final(self).stage() {
                ResponseStage::Copying => r is CopyToRemote,
                ResponseStage::Unlocating => r is ForgetLocalLocation,
                _ => r is ForgetRequest,
            },
    {
        if !copied && (self.strategy == StorageStrategy::Remote || self.strategy
            == StorageStrategy::LocalRemote) {
            self.stage = ResponseStage::Copying;
            ResponseAction::CopyToRemote
        } else if self.strategy == StorageStrategy::Remote {
            self.stage = ResponseStage::Unlocating;
            ResponseAction::ForgetLocalLocation
        } else {
            self.stage = ResponseStage::Forgetting;
            ResponseAction::ForgetRequest
        }
    }
}

/// How far a stage is from the last one.
pub open spec fn steps_left(stage: ResponseStage) -> nat {
    match stage {
        ResponseStage::Sizing => 8,
        ResponseStage::Storing => 7,
        ResponseStage::Marking => 6,
        ResponseStage::Copying => 5,
        ResponseStage::Locating => 4,
        ResponseStage::Unlocating => 3,
        ResponseStage::Removing => 2,
        ResponseStage::Forgetting => 1,
        ResponseStage::Done => 0,
    }
}

/// Storing the data of a response comes to an end, and the file on this device is
/// removed only where it is not to be kept here and has been copied before.
pub proof fn law_response_flow(stage: ResponseStage, strategy: StorageStrategy, reply: ResponseReply)
    requires
        fits(stage, reply),
    ensures
        next_stage(stage, strategy, reply) matches Some(next) ==> {
            &&& steps_left(next) < steps_left(stage)
            &&& next == ResponseStage::Removing ==> stage == ResponseStage::Unlocating
            &&& next == ResponseStage::Unlocating && strategy == StorageStrategy::Remote ==> stage
                == ResponseStage::Locating
            &&& next == ResponseStage::Unlocating ==> strategy == StorageStrategy::Remote
        },
{
}

/// The queue without the request with an id, where that one is pending.
pub open spec fn is_answered(
    before: Seq<OutgoingRequestView>,
    id: i32,
    after: Seq<OutgoingRequestView>,
) -> bool {
    ||| exists|i: int|
        outgoing_requests::is_at(before, id, i) && before[i].pending && after
            == #[trigger] before.remove(i)
    ||| after == before && forall|i: int|
        outgoing_requests::is_at(before, id, i) ==> !(#[trigger] before[i]).pending
}

/// Forgets a request that has been answered.
pub fn forget_request(state: &mut BepState, queue: &mut OutgoingRequests, request_id: &i32)
    requires
        old(queue).wf(),
    ensures
        final(queue).wf(),
        is_answered(old(queue)@, *request_id, final(queue)@),
        final(state)@ == (BepStateView {
            requests: old(state)@.requests.remove(*request_id),
            ..old(state)@
        }),
{
    let ghost before = queue@;
    if queue.is_pending(request_id) {
        proof {
            queue.lemma_ids_distinct(*request_id);
        }
        let _ = queue.remove(request_id);
        proof {
            let i = choose|i: int|
                outgoing_requests::is_at(before, *request_id, i) && queue@ == before.remove(i);
            assert(before[i].pending);
        }
    }
    let _ = state.remove_request(request_id);
}

// ---------------------------------------------------------------------------
// Indices

/// Whose index it is.
#[derive(Debug, Clone, Copy, PartialEq, Eq, Structural)]
pub enum Side {
    /// That of the peer.
    Client,
    /// That of this device.
    Local,
}

/// What has been done of taking in an index or an update of one.
#[derive(Debug, Clone, Copy, PartialEq, Eq, Structural)]
pub enum IndexStage {
    Start,
    /// The index of the peer is being read, to see what the update adds.
    ReadingClient,
    /// The index of the peer is being changed.
    WritingClient,
    /// The index of this device is being read.
    ReadingLocal,
    /// The index of the peer is being read again.
    RereadingClient,
    /// The index of this device is being changed.
    WritingLocal,
    /// The blocks that are not stored are being read.
    ReadingBlocks,
}

/// What has come of the last action.
#[derive(Debug)]
pub enum IndexReply {
    Did,
    /// The index that was read, where there is one.
    Read(Option<Index>),
}

/// What is to be done next.
#[derive(Debug)]
pub enum IndexAction {
    /// Put the files of the index that came in the place of those of the peer.
    ReplaceClientIndex,
    /// Read the index of the folder.
    ReadIndex(Side),
    /// Write files over those in the index.
    InsertFiles(Side, Vec<FileInfo>),
    /// Write files in the place of those in the index, which are removed.
    ReplaceFiles(Side, Vec<FileInfo>),
    /// Read the blocks that are not stored, and ask for them.
    RequestBlocks,
}

/// Why an index was not taken in.
#[derive(Debug, Clone, Copy, PartialEq, Eq, Structural)]
pub enum IndexFlowError {
    /// There is no index of the folder.
    NoIndex,
    /// The indices cannot be compared.
    Diff(DiffError),
}

/// Takes in an index or an update of one, step by step.
#[derive(Debug)]
pub struct IndexFlow {
    received: Index,
    is_update: bool,
    stage: IndexStage,
    local: Option<Index>,
}

#[verifier::ext_equal]
pub struct IndexFlowView {
    pub received: IndexView,
    pub is_update: bool,
    pub stage: IndexStage,
    pub local: Option<IndexView>,
}

impl View for IndexFlow {
    type V = IndexFlowView;

    closed spec fn view(&self) -> IndexFlowView {
        IndexFlowView {
            received: self.received@,
            is_update: self.is_update,
            stage: self.stage,
            local: wire::view_option(self.local),
        }
    }
}

/// The reply is one that can come at this stage.
pub open spec fn index_fits(v: IndexFlowView, reply: IndexReply) -> bool {
    &&& match v.stage {
        IndexStage::Start | IndexStage::WritingClient | IndexStage::WritingLocal => reply is Did,
        IndexStage::ReadingBlocks => false,
        _ => reply is Read,
    }
    &&& v.stage == IndexStage::RereadingClient ==> v.local is Some
}

/// What the flow is after a reply, and what is done then.
pub open spec fn is_index_step(
    before: IndexFlowView,
    reply: IndexReply,
    after: IndexFlowView,
    action: Result<IndexAction, IndexFlowError>,
) -> bool {
    let folder = before.received.folder;
    let at = |stage: IndexStage| IndexFlowView { stage, ..before };
    match before.stage {
        IndexStage::Start => if before.is_update {
            after == at(IndexStage::ReadingClient) && (action matches Ok(a)
                && a == IndexAction::ReadIndex(Side::Client))
        } else {
            after == at(IndexStage::WritingClient) && (action matches Ok(a)
                && a is ReplaceClientIndex)
        },
        IndexStage::ReadingClient => match reply->Read_0 {
            None => after == before && action == Err::<IndexAction, IndexFlowError>(
                IndexFlowError::NoIndex,
            ),
            Some(existing) => match diff_of(folder, before.received, existing@) {
                Err(e) => after == before && action == Err::<IndexAction, IndexFlowError>(
                    IndexFlowError::Diff(e),
                ),
                Ok(d) => {
                    &&& after == at(IndexStage::WritingClient)
                    &&& action matches Ok(IndexAction::ReplaceFiles(side, files))
                    &&& side == Side::Client
                    &&& crate::views(files@) == d.newly_added_files
                },
            },
        },
        IndexStage::WritingClient => after == at(IndexStage::ReadingLocal) && (action
            matches Ok(a) && a == IndexAction::ReadIndex(Side::Local)),
        IndexStage::ReadingLocal => match reply->Read_0 {
            None => after == before && action == Err::<IndexAction, IndexFlowError>(
                IndexFlowError::NoIndex,
            ),
            Some(local) => if before.is_update {
                &&& after == (IndexFlowView {
                    stage: IndexStage::RereadingClient,
                    local: Some(local@),
                    ..before
                })
                &&& action matches Ok(a)
                &&& a == IndexAction::ReadIndex(Side::Client)
            } else {
                match diff_of(folder, before.received, local@) {
                    Err(e) => after == before && action == Err::<IndexAction, IndexFlowError>(
                        IndexFlowError::Diff(e),
                    ),
                    Ok(d) => {
                        &&& after == at(IndexStage::WritingLocal)
                        &&& action matches Ok(IndexAction::InsertFiles(side, files))
                        &&& side == Side::Local
                        &&& crate::views(files@) == d.newly_added_files
                    },
                }
            },
        },
        IndexStage::RereadingClient => match reply->Read_0 {
            None => after == before && action == Err::<IndexAction, IndexFlowError>(
                IndexFlowError::NoIndex,
            ),
            Some(client) => match diff_of(folder, client@, before.local->0) {
                Err(e) => after == before && action == Err::<IndexAction, IndexFlowError>(
                    IndexFlowError::Diff(e),
                ),
                Ok(d) => {
                    &&& after == at(IndexStage::WritingLocal)
                    &&& action matches Ok(IndexAction::ReplaceFiles(side, files))
                    &&& side == Side::Local
                    &&& crate::views(files@) == d.newly_added_files
                },
            },
        },
        IndexStage::WritingLocal => after == at(IndexStage::ReadingBlocks) && (action
            matches Ok(a) && a is RequestBlocks),
        IndexStage::ReadingBlocks => false,
    }
}

impl IndexFlow {
    /// Starts to take in an index, or an update of one.
    pub fn new(received: Index, is_update: bool) -> (r: Self)
        ensures
            r@ == (IndexFlowView {
                received: received@,
                is_update,
                stage: IndexStage::Start,
                local: None,
            }),
    {
        IndexFlow { received, is_update, stage: IndexStage::Start, local: None }
    }

    /// The index that came.
    pub fn received(&self) -> (r: &Index)
        ensures
            r@ == self@.received,
    {
        &self.received
    }

    fn added_to(&self, added: &Index, existing: &Index) -> (r: Result<Vec<FileInfo>, IndexFlowError>)
        ensures
            match diff_of(self@.received.folder, added@, existing@) {
                Ok(d) => r matches Ok(files) && crate::views(files@) == d.newly_added_files,
                Err(e) => r == Err::<Vec<FileInfo>, IndexFlowError>(IndexFlowError::Diff(e)),
            },
    {
        match diff_indices(self.received.folder.as_str(), added, existing) {
            Ok(d) => Ok(d.newly_added_files),
            Err(e) => Err(IndexFlowError::Diff(e)),
        }
    }

    /// Decides what is to be done next, given what has come of the last action.
    pub fn next(&mut self, reply: IndexReply) -> (r: Result<IndexAction, IndexFlowError>)
        requires
            index_fits(old(self)@, reply),
        ensures
            is_index_step(old(self)@, reply, final(self)@, r),
    {
        let read = match reply {
            IndexReply::Did => None,
            IndexReply::Read(index) => index,
        };
        match self.stage {
            IndexStage::Start => {
                if self.is_update {
                    self.stage = IndexStage::ReadingClient;
                    Ok(IndexAction::ReadIndex(Side::Client))
                } else {
                    self.stage = IndexStage::WritingClient;
                    Ok(IndexAction::ReplaceClientIndex)
                }
            },
            IndexStage::ReadingClient => match read {
                None => Err(IndexFlowError::NoIndex),
                Some(existing) => {
                    let files = self.added_to(&self.received, &existing)?;
                    self.stage = IndexStage::WritingClient;
                    Ok(IndexAction::ReplaceFiles(Side::Client, files))
                },
            },
            IndexStage::WritingClient => {
                self.stage = IndexStage::ReadingLocal;
                Ok(IndexAction::ReadIndex(Side::Local))
            },
            IndexStage::ReadingLocal => match read {
                None => Err(IndexFlowError::NoIndex),
                Some(local) => {
                    if self.is_update {
                        self.local = Some(local);
                        self.stage = IndexStage::RereadingClient;
                        Ok(IndexAction::ReadIndex(Side::Client))
                    } else {
                        let files = self.added_to(&self.received, &local)?;
                        self.stage = IndexStage::WritingLocal;
                        Ok(IndexAction::InsertFiles(Side::Local, files))
                    }
                },
            },
            IndexStage::RereadingClient => match (read, &self.local) {
                (Some(client), Some(local)) => {
                    let files = self.added_to(&client, local)?;
                    self.stage = IndexStage::WritingLocal;
                    Ok(IndexAction::ReplaceFiles(Side::Local, files))
                },
                _ => Err(IndexFlowError::NoIndex),
            },
            IndexStage::WritingLocal | IndexStage::ReadingBlocks => {
                self.stage = IndexStage::ReadingBlocks;
                Ok(IndexAction::RequestBlocks)
            },
        }
    }
}

/// How far taking in an index has come.
pub open spec fn index_progress(stage: IndexStage) -> nat {
    match stage {
        IndexStage::Start => 0,
        IndexStage::ReadingClient => 1,
        IndexStage::WritingClient => 2,
        IndexStage::ReadingLocal => 3,
        IndexStage::RereadingClient => 4,
        IndexStage::WritingLocal => 5,
        IndexStage::ReadingBlocks => 6,
    }
}

/// Taking in an index comes to an end, and blocks are asked for only after the index of
/// this device was changed, which is only after that of the peer was.
pub proof fn law_index_flow(
    before: IndexFlowView,
    reply: IndexReply,
    after: IndexFlowView,
    action: Result<IndexAction, IndexFlowError>,
)
    requires
        index_fits(before, reply),
        is_index_step(before, reply, after, action),
    ensures
        action is Ok ==> index_progress(after.stage) > index_progress(before.stage),
        action is Err ==> after == before,
        after.received == before.received,
        after.stage == IndexStage::ReadingBlocks ==> before.stage == IndexStage::WritingLocal,
        after.stage == IndexStage::ReadingLocal && action is Ok ==> before.stage
            == IndexStage::WritingClient,
{
}

// ---------------------------------------------------------------------------
// Other messages

/// The hello that answers one.
pub fn handle_hello(name: &str, client_name: &str, client_version: &str) -> (r: GrizolEvent)
    ensures
        r@ == GrizolEventView::Message(
            CompleteMessageView::Hello(
                HelloView {
                    device_name: name@,
                    client_name: client_name@,
                    client_version: client_version@,
                },
            ),
        ),
{
    GrizolEvent::Message(
        CompleteMessage::Hello(
            Hello {
                device_name: name.to_owned(),
                client_name: client_name.to_owned(),
                client_version: client_version.to_owned(),
            },
        ),
    )
}

/// The folder is shared with the device.
pub open spec fn shares(f: FolderView, id: Seq<u8>) -> bool {
    exists|i: int| 0 <= i < f.devices.len() && (#[trigger] f.devices[i]).id == id
}

/// The ids of the folders that are shared with a device.
pub open spec fn shared_with(fs: Seq<FolderView>, id: Seq<u8>) -> Seq<Seq<char>>
    decreases fs.len(),
{
    if fs.len() == 0 {
        Seq::empty()
    } else {
        let before = shared_with(fs.drop_last(), id);
        if shares(fs.last(), id) {
            before.push(fs.last().id)
        } else {
            before
        }
    }
}

fn is_shared(f: &Folder, device: &DeviceId) -> (r: bool)
    ensures
        r == shares(f@, device.id@),
{
    let ghost ds = f@.devices;
    let mut i: usize = 0;
    while i < f.devices.len()
        invariant
            i <= f.devices@.len(),
            ds == f@.devices,
            ds == crate::views(f.devices@),
            forall|j: int| 0 <= j < i ==> (#[trigger] ds[j]).id != device.id@,
        decreases f.devices@.len() - i,
    {
        assert(ds[i as int] == f.devices@[i as int]@);
        if storage::digest_matches(&device.id, &f.devices[i].id) {
            return true;
        }
        i += 1;
    }
    false
}

/// The ids of the folders that are shared with a device.
pub fn folders_shared_with(cluster_config: &ClusterConfig, device: &DeviceId) -> (r: Vec<String>)
    ensures
        crate::views(r@) == shared_with(cluster_config@.folders, device.id@),
{
    let ghost fs = cluster_config@.folders;
    let mut out: Vec<String> = Vec::new();
    let mut i: usize = 0;
    assert(crate::views(out@) =~= Seq::empty());
    while i < cluster_config.folders.len()
        invariant
            i <= cluster_config.folders@.len(),
            fs == crate::views(cluster_config.folders@),
            crate::views(out@) == shared_with(fs.take(i as int), device.id@),
        decreases cluster_config.folders@.len() - i,
    {
        let f = &cluster_config.folders[i];
        proof {
            assert(fs.take(i + 1).drop_last() =~= fs.take(i as int));
            assert(fs.take(i + 1).last() == f@);
        }
        if is_shared(f, device) {
            let id = f.id.clone();
            proof {
                crate::lemma_views_push(out@, id);
            }
            out.push(id);
        }
        i += 1;
    }
    assert(fs.take(fs.len() as int) =~= fs);
    out
}

/// What makes sure that both devices have an index of each folder.
pub open spec fn init_statements(folders: Seq<Seq<char>>, client: Seq<u8>, local: Seq<u8>) -> Seq<
    StatementView,
>
    decreases folders.len(),
{
    if folders.len() == 0 {
        Seq::empty()
    } else {
        init_statements(folders.drop_last(), client, local).push(
            bep_state::init_index_statement(folders.last(), client),
        ).push(bep_state::init_index_statement(folders.last(), local))
    }
}

/// What is done in the database when a peer tells which folders it shares: they are
/// written, and both devices get an index of those that are shared with this one.
pub fn handle_cluster_config(
    cluster_config: &ClusterConfig,
    client_device_id: &DeviceId,
    local_device_id: &DeviceId,
) -> (r: Result<Vec<Statement>, StateError>)
    ensures
        if bep_state::folders_ok(cluster_config@.folders) {
            r matches Ok(s) && crate::views(s@) == seq![statements::bare(Query::Begin)]
                + bep_state::folders_statements(cluster_config@.folders) + seq![
                statements::bare(Query::End),
            ] + init_statements(
                shared_with(cluster_config@.folders, local_device_id.id@),
                client_device_id.id@,
                local_device_id.id@,
            )
        } else {
            r == Err::<Vec<Statement>, StateError>(StateError::BadDeviceId)
        },
{
    let mut out = BepState::update_cluster_config(cluster_config)?;
    let folders = folders_shared_with(cluster_config, local_device_id);
    let ghost fs = crate::views(folders@);
    let ghost before = crate::views(out@);
    let ghost client = client_device_id.id@;
    let ghost local = local_device_id.id@;
    let mut i: usize = 0;
    assert(before + init_statements(fs.take(0), client, local) =~= before);
    while i < folders.len()
        invariant
            i <= folders@.len(),
            fs == crate::views(folders@),
            client == client_device_id.id@,
            local == local_device_id.id@,
            crate::views(out@) == before + init_statements(fs.take(i as int), client, local),
        decreases folders@.len() - i,
    {
        proof {
            assert(fs.take(i + 1).drop_last() =~= fs.take(i as int));
            assert(fs.take(i + 1).last() == folders@[i as int]@);
        }
        statements::add_statement(
            &mut out,
            BepState::init_index(folders[i].as_str(), client_device_id),
        );
        statements::add_statement(
            &mut out,
            BepState::init_index(folders[i].as_str(), local_device_id),
        );
        assert(crate::views(out@) =~= before + init_statements(fs.take(i + 1), client, local));
        i += 1;
    }
    assert(fs.take(fs.len() as int) =~= fs);
    Ok(out)
}

/// What a peer is told after it told which folders it shares: which this device shares,
/// and the indices of them.
pub fn cluster_config_reply(cluster_config: ClusterConfig, indices: Vec<Index>) -> (r: Vec<GrizolEvent>)
    ensures
        crate::views(r@) == seq![
            GrizolEventView::Message(CompleteMessageView::ClusterConfig(cluster_config@)),
        ] + crate::views(indices@).map_values(
            |i: IndexView| GrizolEventView::Message(CompleteMessageView::Index(i)),
        ),
{
    let ghost op = |i: IndexView| GrizolEventView::Message(CompleteMessageView::Index(i));
    let ghost all = crate::views(indices@);
    let ghost first = GrizolEventView::Message(
        CompleteMessageView::ClusterConfig(cluster_config@),
    );
    let mut out: Vec<GrizolEvent> = Vec::new();
    out.push(GrizolEvent::Message(CompleteMessage::ClusterConfig(cluster_config)));
    let mut i: usize = 0;
    assert(crate::views(out@) =~= seq![first] + all.take(0).map_values(op));
    while i < indices.len()
        invariant
            i <= indices@.len(),
            all == crate::views(indices@),
            op == |i: IndexView| GrizolEventView::Message(CompleteMessageView::Index(i)),
            crate::views(out@) == seq![first] + all.take(i as int).map_values(op),
        decreases indices@.len() - i,
    {
        let event = GrizolEvent::Message(CompleteMessage::Index(indices[i].clone()));
        proof {
            assert(all[i as int] == indices@[i as int]@);
            crate::lemma_views_push(out@, event);
        }
        out.push(event);
        assert(all.take(i + 1).map_values(op) =~= all.take(i as int).map_values(op).push(
            op(all[i as int]),
        ));
        assert(crate::views(out@) =~= seq![first] + all.take(i + 1).map_values(op));
        i += 1;
    }
    assert(all.take(all.len() as int) =~= all);
    out
}

// ---------------------------------------------------------------------------
// The processor

/// What is to be done about a message.
#[derive(Debug)]
pub enum Task {
    /// Tell the peer these things.
    Reply(Vec<GrizolEvent>),
    /// Do this in the database, then tell the peer what is shared with it.
    Share(Result<Vec<Statement>, StateError>),
    /// Take in an index.
    TakeIndex(IndexFlow),
    /// Store the data for a request.
    Store(Result<(Request, ResponseFlow), BepProcessorError>),
    /// Nothing: the message is of a type that is not dealt with.
    Unsupported,
}

/// Deals with the messages of peers.
#[derive(Debug)]
pub struct BepProcessor {
    config: GrizolConfig,
    requests: OutgoingRequests,
}

#[verifier::ext_equal]
pub struct BepProcessorView {
    pub local_device_id: Seq<u8>,
    pub name: Seq<char>,
    pub storage_strategy: StorageStrategy,
    pub max_pending_requests: usize,
    pub max_total_pending_requests_size: usize,
    pub queue: Seq<OutgoingRequestView>,
}

impl View for BepProcessor {
    type V = BepProcessorView;

    closed spec fn view(&self) -> BepProcessorView {
        BepProcessorView {
            local_device_id: self.config.local_device_id.id@,
            name: self.config.name@,
            storage_strategy: self.config.storage_strategy,
            max_pending_requests: self.config.max_pending_requests,
            max_total_pending_requests_size: self.config.max_total_pending_requests_size,
            queue: self.requests@,
        }
    }
}

/// The hello of this device.
pub open spec fn hello_of(v: BepProcessorView, client_name: Seq<char>, client_version: Seq<char>) -> GrizolEventView {
    GrizolEventView::Message(
        CompleteMessageView::Hello(
            HelloView { device_name: v.name, client_name, client_version },
        ),
    )
}

/// An index is taken in from the start.
pub open spec fn starts_with(flow: IndexFlow, received: IndexView, is_update: bool) -> bool {
    flow@ == (IndexFlowView { received, is_update, stage: IndexStage::Start, local: None })
}

/// The statements that a cluster configuration leads to.
pub open spec fn is_sharing(
    v: BepProcessorView,
    folders: Seq<FolderView>,
    client: Seq<u8>,
    r: Result<Vec<Statement>, StateError>,
) -> bool {
    if bep_state::folders_ok(folders) {
        r matches Ok(s) && crate::views(s@) == seq![statements::bare(Query::Begin)]
            + bep_state::folders_statements(folders) + seq![statements::bare(Query::End)]
            + init_statements(
            shared_with(folders, v.local_device_id),
            client,
            v.local_device_id,
        )
    } else {
        r == Err::<Vec<Statement>, StateError>(StateError::BadDeviceId)
    }
}

/// The task is the one that a message leads to.
pub open spec fn is_task(
    v: BepProcessorView,
    state: BepStateView,
    message: CompleteMessageView,
    client: Seq<u8>,
    client_name: Seq<char>,
    client_version: Seq<char>,
    task: Task,
) -> bool {
    match message {
        CompleteMessageView::Hello(_) => task matches Task::Reply(events) && crate::views(events@)
            == seq![hello_of(v, client_name, client_version)],
        CompleteMessageView::ClusterConfig(c) => task matches Task::Share(r) && is_sharing(
            v,
            c.folders,
            client,
            r,
        ),
        CompleteMessageView::Index(i) => task matches Task::TakeIndex(flow) && starts_with(
            flow,
            i,
            false,
        ),
        CompleteMessageView::IndexUpdate(i) => task matches Task::TakeIndex(flow) && starts_with(
            flow,
            IndexView { folder: i.folder, files: i.files },
            true,
        ),
        CompleteMessageView::Response(response) => match response_error(
            state.requests,
            response,
            device_id::sha256_of(response.data),
        ) {
            Some(e) => task matches Task::Store(Err(x)) && x@ == e,
            None => {
                &&& task matches Task::Store(Ok(x))
                &&& x.0@ == state.requests[response.id]
                &&& x.1.stage() == ResponseStage::Sizing
                &&& x.1.strategy() == v.storage_strategy
                &&& x.1.name() == x.0@.name
            },
        },
        CompleteMessageView::DownloadProgress(_) => task is Unsupported,
        _ => task matches Task::Reply(events) && events@.len() == 0,
    }
}

/// The order in which requests are put in makes none of them pending.
proof fn lemma_enqueued_pending(q: Seq<OutgoingRequestView>, rs: Seq<RequestView>, now: u64)
    ensures
        outgoing_requests::pending_count(enqueued(q, rs, now).0)
            == outgoing_requests::pending_count(q),
    decreases rs.len(),
{
    if rs.len() > 0 {
        lemma_enqueued_pending(q, rs.drop_last(), now);
        let before = enqueued(q, rs.drop_last(), now).0;
        outgoing_requests::lemma_with_request_pending(before, rs.last().id, rs.last(), now);
    }
}

impl BepProcessor {
    /// The queue is well formed, and no more requests are pending than may be.
    pub closed spec fn wf(&self) -> bool {
        &&& self.requests.wf()
        &&& outgoing_requests::pending_count(self@.queue) <= self@.max_pending_requests
    }

    pub fn new(config: GrizolConfig) -> (r: Self)
        ensures
            r.wf(),
            r@ == (BepProcessorView {
                local_device_id: config.local_device_id.id@,
                name: config.name@,
                storage_strategy: config.storage_strategy,
                max_pending_requests: config.max_pending_requests,
                max_total_pending_requests_size: config.max_total_pending_requests_size,
                queue: Seq::empty(),
            }),
    {
        BepProcessor { config, requests: OutgoingRequests::default() }
    }

    /// Decides what is to be done about a message.
    pub fn handle_complete_message(
        &self,
        state: &BepState,
        complete_message: CompleteMessage,
        client_device_id: &DeviceId,
        client_name: &str,
        client_version: &str,
    ) -> (r: Task)
        ensures
            is_task(
                self@,
                state@,
                complete_message@,
                client_device_id.id@,
                client_name@,
                client_version@,
                r,
            ),
    {
        match complete_message {
            CompleteMessage::Hello(_) => {
                let mut events: Vec<GrizolEvent> = Vec::new();
                events.push(handle_hello(self.config.name.as_str(), client_name, client_version));
                assert(crate::views(events@) =~= seq![
                    hello_of(self@, client_name@, client_version@),
                ]);
                Task::Reply(events)
            },
            CompleteMessage::ClusterConfig(x) => Task::Share(
                handle_cluster_config(&x, client_device_id, &self.config.local_device_id),
            ),
            CompleteMessage::Index(x) => Task::TakeIndex(IndexFlow::new(x, false)),
            CompleteMessage::IndexUpdate(x) => Task::TakeIndex(
                IndexFlow::new(Index { folder: x.folder, files: x.files }, true),
            ),
            CompleteMessage::Response(x) => Task::Store(
                match begin_response(state, &x) {
                    Ok(request) => {
                        let flow = ResponseFlow::new(&request, self.config.storage_strategy);
                        Ok((request, flow))
                    },
                    Err(e) => Err(e),
                },
            ),
            CompleteMessage::DownloadProgress(_) => Task::Unsupported,
            CompleteMessage::Request(_)
            | CompleteMessage::Ping(_)
            | CompleteMessage::Close(_) => Task::Reply(Vec::new()),
        }
    }

    /// The requests that are sent now: as many as the limits allow.
    pub fn throttled_requests(&mut self) -> (r: Vec<Request>)
        requires
            old(self).wf(),
        ensures
            final(self).wf(),
            ({
                let a = outgoing_requests::admission(
                    old(self)@.queue,
                    old(self)@.max_pending_requests as nat,
                    old(self)@.max_total_pending_requests_size as nat,
                );
                &&& crate::views(r@) == a.sent
                &&& final(self)@ == (BepProcessorView { queue: a.queue, ..old(self)@ })
            }),
    {
        proof {
            outgoing_requests::law_limits_kept(
                self@.queue,
                self@.max_pending_requests as nat,
                self@.max_total_pending_requests_size as nat,
            );
        }
        self.requests.update_pending_requests(
            self.config.max_pending_requests,
            self.config.max_total_pending_requests_size,
        )
    }

    /// Makes requests for blocks that are not stored; they wait to be sent.
    pub fn request_blocks(&mut self, state: &mut BepState, unstored_blocks: &Vec<BlockInfoExt>)
        requires
            old(self).wf(),
            ids_up_to(old(self)@.queue, old(state)@.request_id),
            old(state)@.request_id + unstored_blocks@.len() <= i32::MAX,
            unstored_blocks@.len() <= i32::MAX,
            hashes_ok(crate::views(unstored_blocks@)),
        ensures
            final(self).wf(),
            ids_up_to(final(self)@.queue, final(state)@.request_id),
            exists|now: u64, inserted: Seq<RequestView>| #[trigger]
                are_requested(
                    old(state)@,
                    old(self)@.queue,
                    crate::views(unstored_blocks@),
                    now,
                    final(state)@,
                    final(self)@.queue,
                    inserted,
                ),
            final(self)@ == (BepProcessorView { queue: final(self)@.queue, ..old(self)@ }),
    {
        let now: u64 = self.requests.now();
        proof {
            lemma_enqueued_pending(
                self@.queue,
                requests_for(state@.request_id, crate::views(unstored_blocks@)),
                now,
            );
        }
        let _ = store_outgoing_requests_at(state, &mut self.requests, unstored_blocks, now);
    }

    /// Forgets a request that has been answered.
    pub fn forget_request(&mut self, state: &mut BepState, request_id: &i32)
        requires
            old(self).wf(),
        ensures
            final(self).wf(),
            is_answered(old(self)@.queue, *request_id, final(self)@.queue),
            final(self)@ == (BepProcessorView { queue: final(self)@.queue, ..old(self)@ }),
            final(state)@ == (BepStateView {
                requests: old(state)@.requests.remove(*request_id),
                ..old(state)@
            }),
    {
        let ghost before = self@.queue;
        forget_request(state, &mut self.requests, request_id);
        proof {
            if self@.queue != before {
                let i = choose|i: int|
                    outgoing_requests::is_at(before, *request_id, i) && before[i].pending
                        && self@.queue == #[trigger] before.remove(i);
                outgoing_requests::lemma_pending_remove(before, i);
            }
        }
    }
}

} // verus!
