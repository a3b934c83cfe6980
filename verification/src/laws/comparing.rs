//! Which files of an index are new.

use vstd::prelude::*;
use crate::bep_processor;
use crate::bep_processor::{
    DiffError, FileOrder, IndexAction, IndexDiffView, IndexFlowError, IndexFlowView, IndexReply,
    IndexStage, Side,
};
use crate::indices;
use crate::syncthing::{CounterView, FileInfoView, IndexView};

verus! {

/// The counter that a file is compared by is one of its counters, none has a higher value, and
/// those behind it have lower ones.
pub proof fn law_highest_counter(cs: Seq<CounterView>)
    requires
        cs.len() > 0,
    ensures
        cs.contains(bep_processor::max_counter(cs)),
        forall|i: int|
            0 <= i < cs.len() ==> (#[trigger] cs[i]).value <= bep_processor::max_counter(cs).value,
        exists|k: int|
            0 <= k < cs.len() && #[trigger] cs[k] == bep_processor::max_counter(cs)
                && forall|i: int| k < i < cs.len() ==> (#[trigger] cs[i]).value < cs[k].value,
    decreases cs.len(),
{
    let m = bep_processor::max_counter(cs);
    if cs.len() == 1 {
        assert(cs[0] == m);
    } else {
        let front = cs.drop_last();
        law_highest_counter(front);
        let before = bep_processor::max_counter(front);
        let k = choose|k: int|
            0 <= k < front.len() && #[trigger] front[k] == before && forall|i: int|
                k < i < front.len() ==> (#[trigger] front[i]).value < front[k].value;
        assert forall|i: int| 0 <= i < cs.len() implies (#[trigger] cs[i]).value <= m.value by {
            if i < front.len() {
                assert(front[i].value <= before.value);
            }
        }
        if cs.last().value >= before.value {
            assert(cs[cs.len() - 1] == m);
        } else {
            assert(cs[k] == m);
            assert forall|i: int| k < i < cs.len() implies (#[trigger] cs[i]).value < cs[k].value by {
                if i < front.len() {
                    assert(front[i].value < front[k].value);
                }
            }
        }
    }
}

/// The counter is higher than all of these.
pub open spec fn is_above(c: CounterView, cs: Seq<CounterView>) -> bool {
    forall|i: int| 0 <= i < cs.len() ==> (#[trigger] cs[i]).value < c.value
}

/// One of the counters `b` is higher than all of `a`.
pub open spec fn is_outdone(a: Seq<CounterView>, b: Seq<CounterView>) -> bool {
    exists|j: int| 0 <= j < b.len() && is_above(#[trigger] b[j], a)
}

/// The counter at position `k` is the last of the highest ones.
pub open spec fn is_highest(cs: Seq<CounterView>, k: int) -> bool {
    &&& 0 <= k < cs.len()
    &&& forall|i: int| 0 <= i < cs.len() ==> (#[trigger] cs[i]).value <= cs[k].value
    &&& forall|i: int| k < i < cs.len() ==> (#[trigger] cs[i]).value < cs[k].value
}

/// The last of the highest counters were counted by the same device.
pub open spec fn same_device(a: Seq<CounterView>, b: Seq<CounterView>) -> bool {
    exists|i: int, j: int| #[trigger]
        is_highest(a, i) && #[trigger] is_highest(b, j) && a[i].id == b[j].id
}

pub open spec fn counters(f: FileInfoView) -> Seq<CounterView> {
    f.version->0.counters
}

/// The file has a counter.
pub open spec fn is_counted(f: FileInfoView) -> bool {
    f.version is Some && counters(f).len() > 0
}

proof fn lemma_highest(cs: Seq<CounterView>) -> (k: int)
    requires
        cs.len() > 0,
    ensures
        is_highest(cs, k),
        cs[k] == bep_processor::max_counter(cs),
{
    law_highest_counter(cs);
    choose|k: int|
        0 <= k < cs.len() && #[trigger] cs[k] == bep_processor::max_counter(cs) && forall|i: int|
            k < i < cs.len() ==> (#[trigger] cs[i]).value < cs[k].value
}

proof fn lemma_outdone(a: Seq<CounterView>, b: Seq<CounterView>)
    requires
        a.len() > 0,
        b.len() > 0,
    ensures
        is_outdone(a, b) <==> bep_processor::max_counter(a).value < bep_processor::max_counter(
            b,
        ).value,
{
    let i = lemma_highest(a);
    let j = lemma_highest(b);
    if a[i].value < b[j].value {
        assert(is_above(b[j], a)) by {
            assert forall|k: int| 0 <= k < a.len() implies (#[trigger] a[k]).value < b[j].value by {
                assert(a[k].value <= a[i].value);
            }
        }
    }
    if is_outdone(a, b) {
        let k = choose|k: int| 0 <= k < b.len() && is_above(#[trigger] b[k], a);
        assert(a[i].value < b[k].value);
        assert(b[k].value <= b[j].value);
    }
}

proof fn lemma_same_device(a: Seq<CounterView>, b: Seq<CounterView>)
    requires
        a.len() > 0,
        b.len() > 0,
    ensures
        same_device(a, b) <==> bep_processor::max_counter(a).id == bep_processor::max_counter(
            b,
        ).id,
{
    let i = lemma_highest(a);
    let j = lemma_highest(b);
    if same_device(a, b) {
        let (k, l) = choose|k: int, l: int| #[trigger]
            is_highest(a, k) && #[trigger] is_highest(b, l) && a[k].id == b[l].id;
        if k < i {
            assert(a[i].value < a[k].value);
            assert(a[k].value <= a[i].value);
        } else if i < k {
            assert(a[k].value < a[i].value);
            assert(a[i].value <= a[k].value);
        }
        if l < j {
            assert(b[j].value < b[l].value);
            assert(b[l].value <= b[j].value);
        } else if j < l {
            assert(b[l].value < b[j].value);
            assert(b[j].value <= b[l].value);
        }
    }
}

/// A file is older than another one where the other one has a counter that is higher than all
/// counters of the file, and newer the other way round. Where neither is the case, the two are
/// the same where one device counted the highest, and in conflict otherwise.
pub proof fn law_versions_compared(a: FileInfoView, b: FileInfoView)
    requires
        is_counted(a),
        is_counted(b),
    ensures
        ({
            let x = counters(a);
            let y = counters(b);
            let r = bep_processor::version_order(a, b);
            &&& r == Some(FileOrder::Older) <==> is_outdone(x, y)
            &&& r == Some(FileOrder::Newer) <==> is_outdone(y, x)
            &&& r == Some(FileOrder::Same) <==> !is_outdone(x, y) && !is_outdone(y, x)
                && same_device(x, y)
            &&& r is None <==> !is_outdone(x, y) && !is_outdone(y, x) && !same_device(x, y)
        }),
{
    lemma_outdone(counters(a), counters(b));
    lemma_outdone(counters(b), counters(a));
    lemma_same_device(counters(a), counters(b));
}

/// The file was changed before the other one.
pub open spec fn is_earlier(a: FileInfoView, b: FileInfoView) -> bool {
    a.modified_s < b.modified_s || a.modified_s == b.modified_s && a.modified_ns < b.modified_ns
}

/// Of two files in conflict, the one that was changed before the other one is older. Where
/// both were changed at the same time, their counters decide.
pub proof fn law_times_compared(a: FileInfoView, b: FileInfoView)
    requires
        is_counted(a),
        is_counted(b),
    ensures
        ({
            let r = bep_processor::timestamp_order(a, b);
            let at_once = a.modified_s == b.modified_s && a.modified_ns == b.modified_ns;
            &&& r == FileOrder::Older <==> is_earlier(a, b) || at_once && is_outdone(
                counters(a),
                counters(b),
            )
            &&& r == FileOrder::Newer <==> is_earlier(b, a) || at_once && is_outdone(
                counters(b),
                counters(a),
            )
        }),
{
    lemma_outdone(counters(a), counters(b));
    lemma_outdone(counters(b), counters(a));
}

/// The file of the same name at position `k`.
pub open spec fn is_namesake(existing: Seq<FileInfoView>, f: FileInfoView, k: int) -> bool {
    0 <= k < existing.len() && existing[k].name == f.name
}

/// There is no file of the same name, or one that is outdone.
pub open spec fn is_news(existing: Seq<FileInfoView>, f: FileInfoView) -> bool {
    ||| forall|k: int| !#[trigger] is_namesake(existing, f, k)
    ||| exists|k: int| #[trigger]
        is_namesake(existing, f, k) && is_outdone(counters(existing[k]), counters(f))
}

/// Neither file is newer, and they are not the same.
pub open spec fn in_conflict(e: FileInfoView, f: FileInfoView) -> bool {
    &&& !is_outdone(counters(e), counters(f))
    &&& !is_outdone(counters(f), counters(e))
    &&& !same_device(counters(e), counters(f))
}

/// There is a file of the same name, in conflict with the file and changed before it.
pub open spec fn is_later_conflict(existing: Seq<FileInfoView>, f: FileInfoView) -> bool {
    exists|k: int| #[trigger]
        is_namesake(existing, f, k) && in_conflict(existing[k], f) && is_earlier(existing[k], f)
}

/// There is a file of the same name, in conflict with the file and changed after it.
pub open spec fn is_earlier_conflict(existing: Seq<FileInfoView>, f: FileInfoView) -> bool {
    exists|k: int| #[trigger]
        is_namesake(existing, f, k) && in_conflict(existing[k], f) && is_earlier(f, existing[k])
}

/// The file can be compared with the one of the same name, if there is one: both are counted,
/// and they were not changed at the same time where they are in conflict.
pub open spec fn is_comparable(existing: Seq<FileInfoView>, f: FileInfoView) -> bool {
    forall|k: int| #[trigger]
        is_namesake(existing, f, k) ==> is_counted(existing[k]) && is_counted(f) && (in_conflict(
            existing[k],
            f,
        ) ==> is_earlier(existing[k], f) || is_earlier(f, existing[k]))
}

proof fn lemma_namesake(existing: Seq<FileInfoView>, f: FileInfoView, k: int)
    requires
        indices::names_distinct(existing),
    ensures
        is_namesake(existing, f, k) ==> indices::by_name(existing).dom().contains(f.name)
            && indices::by_name(existing)[f.name] == existing[k],
        indices::by_name(existing).dom().contains(f.name) ==> exists|l: int| #[trigger]
            is_namesake(existing, f, l),
        forall|l: int| #[trigger]
            is_namesake(existing, f, k) && #[trigger] is_namesake(existing, f, l) ==> k == l,
{
    indices::lemma_by_name(existing);
    if indices::by_name(existing).dom().contains(f.name) {
        indices::lemma_by_name_named(existing, f.name);
        let e = indices::by_name(existing)[f.name];
        let l = choose|l: int| 0 <= l < existing.len() && existing[l] == e;
        assert(is_namesake(existing, f, l));
    }
}

/// Comparing one more file.
proof fn lemma_one_compared(d: IndexDiffView, existing: Seq<FileInfoView>, f: FileInfoView)
    requires
        indices::names_distinct(existing),
    ensures
        ({
            let r = bep_processor::diff_with(d, indices::by_name(existing), f);
            &&& r is Ok <==> is_comparable(existing, f)
            &&& r matches Ok(n) ==> {
                &&& n.newly_added_files == if is_news(existing, f) {
                    d.newly_added_files.push(f)
                } else {
                    d.newly_added_files
                }
                &&& n.newly_added_conflicting_files == if is_later_conflict(existing, f) {
                    d.newly_added_conflicting_files.push(f)
                } else {
                    d.newly_added_conflicting_files
                }
                &&& n.existing_conflicting_files == if is_earlier_conflict(existing, f) {
                    d.existing_conflicting_files.push(f)
                } else {
                    d.existing_conflicting_files
                }
            }
            &&& r matches Err(e) ==> {
                &&& e != DiffError::DifferentFolders
                &&& e == DiffError::NoVersion <==> exists|k: int| #[trigger]
                    is_namesake(existing, f, k) && !(is_counted(existing[k]) && is_counted(f))
            }
        }),
{
    let m = indices::by_name(existing);
    if m.dom().contains(f.name) {
        lemma_namesake(existing, f, 0);
        let k = choose|k: int| is_namesake(existing, f, k);
        let e = existing[k];
        lemma_namesake(existing, f, k);
        assert(m[f.name] == e);
        if is_counted(e) && is_counted(f) {
            law_versions_compared(e, f);
            law_times_compared(e, f);
        }
    } else {
        assert forall|k: int| !#[trigger] is_namesake(existing, f, k) by {
            lemma_namesake(existing, f, k);
        }
    }
}

proof fn lemma_all_compared(added: Seq<FileInfoView>, existing: Seq<FileInfoView>)
    requires
        indices::names_distinct(existing),
    ensures
        ({
            let r = bep_processor::diff_files(added, indices::by_name(existing));
            &&& r is Ok <==> forall|i: int|
                0 <= i < added.len() ==> is_comparable(existing, #[trigger] added[i])
            &&& r matches Ok(d) ==> {
                &&& d.newly_added_files == added.filter(
                    |f: FileInfoView| is_news(existing, f),
                )
                &&& d.newly_added_conflicting_files == added.filter(
                    |f: FileInfoView| is_later_conflict(existing, f),
                )
                &&& d.existing_conflicting_files == added.filter(
                    |f: FileInfoView| is_earlier_conflict(existing, f),
                )
            }
            &&& r matches Err(e) ==> e != DiffError::DifferentFolders
        }),
    decreases added.len(),
{
    reveal(Seq::filter);
    if added.len() > 0 {
        let front = added.drop_last();
        lemma_all_compared(front, existing);
        let r = bep_processor::diff_files(front, indices::by_name(existing));
        let all = bep_processor::diff_files(added, indices::by_name(existing));
        if r is Ok {
            lemma_one_compared(r->Ok_0, existing, added.last());
            assert(added[added.len() - 1] == added.last());
            if all is Ok {
                assert forall|i: int| 0 <= i < added.len() implies is_comparable(
                    existing,
                    #[trigger] added[i],
                ) by {
                    if i < front.len() {
                        assert(is_comparable(existing, front[i]));
                    }
                }
            }
        } else {
            let i = choose|i: int|
                0 <= i < front.len() && !is_comparable(existing, #[trigger] front[i]);
            assert(added[i] == front[i]);
        }
        if forall|i: int| 0 <= i < added.len() ==> is_comparable(existing, #[trigger] added[i]) {
            assert forall|i: int| 0 <= i < front.len() implies is_comparable(
                existing,
                #[trigger] front[i],
            ) by {
                assert(front[i] == added[i]);
            }
        }
    }
}

/// The files of an index that are new to another one are those that the other one has no file
/// of the same name for, or one whose counters are all lower than one of the file's; they come
/// in order. Files in conflict are told apart by when they were changed. The indices cannot be
/// compared where both are of other folders, or where a file cannot be compared with the one
/// of the same name.
pub proof fn law_new_files(folder: Seq<char>, added: IndexView, existing: IndexView)
    requires
        indices::names_distinct(existing.files),
    ensures
        ({
            let r = bep_processor::diff_of(folder, added, existing);
            &&& r == Err::<IndexDiffView, DiffError>(DiffError::DifferentFolders) <==> added.folder
                != folder && existing.folder != folder
            &&& r is Ok <==> (added.folder == folder || existing.folder == folder) && forall|
                i: int,
            |
                0 <= i < added.files.len() ==> is_comparable(
                    existing.files,
                    #[trigger] added.files[i],
                )
            &&& r matches Ok(d) ==> {
                &&& d.newly_added_files == added.files.filter(
                    |f: FileInfoView| is_news(existing.files, f),
                )
                &&& d.newly_added_conflicting_files == added.files.filter(
                    |f: FileInfoView| is_later_conflict(existing.files, f),
                )
                &&& d.existing_conflicting_files == added.files.filter(
                    |f: FileInfoView| is_earlier_conflict(existing.files, f),
                )
            }
        }),
{
    lemma_all_compared(added.files, existing.files);
}

/// A file of an index is among the new ones exactly where it is new, and nothing else is.
pub proof fn law_new_file(
    folder: Seq<char>,
    added: IndexView,
    existing: IndexView,
    f: FileInfoView,
)
    requires
        indices::names_distinct(existing.files),
        bep_processor::diff_of(folder, added, existing) is Ok,
    ensures
        (bep_processor::diff_of(folder, added, existing)->Ok_0).newly_added_files.contains(f)
            <==> added.files.contains(f) && is_news(existing.files, f),
{
    law_new_files(folder, added, existing);
    let p = |g: FileInfoView| is_news(existing.files, g);
    lemma_filtered(added.files, p, f);
}

pub proof fn lemma_filtered<A>(s: Seq<A>, p: spec_fn(A) -> bool, x: A)
    ensures
        s.filter(p).contains(x) <==> s.contains(x) && p(x),
    decreases s.len(),
{
    reveal(Seq::filter);
    if s.len() > 0 {
        let front = s.drop_last();
        lemma_filtered(front, p, x);
        let r = s.filter(p);
        let q = front.filter(p);
        if front.contains(x) {
            let i = choose|i: int| 0 <= i < front.len() && front[i] == x;
            assert(s[i] == x);
        }
        if s.contains(x) && !front.contains(x) {
            let i = choose|i: int| 0 <= i < s.len() && s[i] == x;
            if i < front.len() {
                assert(front[i] == x);
            }
        }
        if q.contains(x) {
            let i = choose|i: int| 0 <= i < q.len() && q[i] == x;
            assert(r[i] == x);
        }
        if p(s.last()) {
            assert(r[r.len() - 1] == s.last());
            if r.contains(x) {
                let i = choose|i: int| 0 <= i < r.len() && r[i] == x;
                if i < q.len() {
                    assert(q[i] == x);
                }
            }
            if x == s.last() {
                assert(s[s.len() - 1] == x);
            }
        }
    }
}

/// Where an index has come, the files that are written to the index of this device are those
/// of the peer that are new to it: of the index that came, or, where only an update came, of
/// all that is known of the peer. To the index of the peer go those of the update that are new
/// to it.
pub proof fn law_new_files_taken_over(
    before: IndexFlowView,
    reply: IndexReply,
    after: IndexFlowView,
    action: Result<IndexAction, IndexFlowError>,
)
    requires
        bep_processor::index_fits(before, reply),
        bep_processor::is_index_step(before, reply, after, action),
    ensures
        action matches Ok(IndexAction::InsertFiles(side, files)) ==> {
            &&& side == Side::Local
            &&& before.stage == IndexStage::ReadingLocal && !before.is_update
            &&& reply matches IndexReply::Read(Some(local))
            &&& indices::names_distinct(local@.files) ==> crate::views(files@)
                == before.received.files.filter(
                |f: FileInfoView| is_news(local@.files, f),
            )
        },
        action matches Ok(IndexAction::ReplaceFiles(side, files)) ==> {
            &&& before.is_update || before.stage != IndexStage::ReadingLocal
            &&& reply matches IndexReply::Read(Some(read))
            &&& side == Side::Client ==> before.stage == IndexStage::ReadingClient && (
            indices::names_distinct(read@.files) ==> crate::views(files@)
                == before.received.files.filter(|f: FileInfoView| is_news(read@.files, f)))
            &&& side == Side::Local ==> before.stage == IndexStage::RereadingClient && (
            indices::names_distinct(before.local->0.files) ==> crate::views(files@)
                == read@.files.filter(|f: FileInfoView| is_news(before.local->0.files, f)))
        },
        before.stage == IndexStage::Start && before.is_update ==> action == Ok::<
            IndexAction,
            IndexFlowError,
        >(IndexAction::ReadIndex(Side::Client)),
        before.stage == IndexStage::Start && !before.is_update ==> action == Ok::<
            IndexAction,
            IndexFlowError,
        >(IndexAction::ReplaceClientIndex),
        before.stage == IndexStage::WritingClient ==> action == Ok::<IndexAction, IndexFlowError>(
            IndexAction::ReadIndex(Side::Local),
        ),
        before.stage == IndexStage::ReadingLocal && before.is_update && reply->Read_0 is Some
            ==> action == Ok::<IndexAction, IndexFlowError>(IndexAction::ReadIndex(Side::Client))
            && after.local == Some(reply->Read_0->0@),
        before.stage == IndexStage::WritingLocal ==> action == Ok::<IndexAction, IndexFlowError>(
            IndexAction::RequestBlocks,
        ),
{
    let folder = before.received.folder;
    if let IndexReply::Read(Some(read)) = reply {
        if indices::names_distinct(read@.files) {
            law_new_files(folder, before.received, read@);
        }
        if before.local is Some && indices::names_distinct(before.local->0.files) {
            law_new_files(folder, read@, before.local->0);
        }
    }
}

} // verus!
